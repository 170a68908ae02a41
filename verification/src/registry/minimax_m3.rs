//! MiniMax-M3.
use crate::encoder_inputs::PreprocessedEncoderInputs;
use crate::float::binary32::Binary32;
use crate::float::binary64::Binary64;
use crate::float::display;
use crate::float::value::FloatValue;
use crate::json;
use crate::json::empty_object;
use crate::media::{VideoFetchConfig, ONE_BITS};
use crate::registry;
use crate::registry::{
    encode_for, grid_keys, no_layouts, with_layout, ModelMetadata, ModelProcessorSpec,
    ModelRegistryError, RegistryErrorView, RegistryResult, Tokenizer,
};
use crate::text;
use crate::text::{ascii_lowercase, has, same};
use crate::types;
use crate::types::{
    append_repeated, FieldLayout, FieldLayoutView, Modality, ModalityLimits, PlaceholderRange,
    PromptReplacement, PromptReplacementView, TokenId,
};
use crate::video_sampling;
use crate::video_sampling::{VideoSamplingStrategy, VideoSourceMeta};
use crate::vision::PreProcessorConfig;
use serde_json::Value;
use vstd::hash_map::StringHashMap;
use vstd::prelude::*;

verus! {

/// The frame kept after `last`: the first one that lies a sampling interval
/// after it, less a ten-thousandth of a second, and at least the next.
pub open spec fn next_kept(video_fps: FloatValue, fps: FloatValue, last: int) -> int {
    let kept = FloatValue::of(last).over(video_fps);
    let target = kept.plus(FloatValue::of(1).over(fps)).minus(
        FloatValue::of(1).over(FloatValue::of(10000)),
    );
    let frame = video_sampling::to_index(target.times(video_fps).ceil());
    if frame < last + 1 {
        last + 1
    } else {
        frame as int
    }
}

/// The frames kept after `last`.
pub open spec fn kept_after(total: int, video_fps: FloatValue, fps: FloatValue, last: int) -> Seq<
    usize,
>
    decreases total - last,
{
    let next = next_kept(video_fps, fps, last);
    if next >= total || last >= total {
        Seq::empty()
    } else {
        seq![next as usize] + kept_after(total, video_fps, fps, next)
    }
}

/// The frames that MiniMax-M3 sampling picks.
pub open spec fn minimax_m3_indices(source: VideoSourceMeta, sample_fps: Binary32) -> Seq<usize> {
    if source.total_frames == 0 {
        Seq::empty()
    } else if !(source.original_fps@.is_known() && sample_fps@.is_known()) {
        seq![0usize]
    } else {
        seq![0usize] + kept_after(
            source.total_frames as int,
            source.original_fps@,
            sample_fps@,
            0,
        )
    }
}

/// A ceil-interval walk keeping one frame every `1 / sample_fps` seconds of
/// source time. There is no min/max frame clamp; invalid or unknown rates
/// degrade to the first frame. `min_frames`/`max_frames` are accepted for
/// signature uniformity but unused.
///
/// Non-uniform by design: consumers that need per-frame timing must read the
/// sampled indices back.
pub fn minimax_m3_frame_indices(
    source: &VideoSourceMeta,
    _min_frames: usize,
    _max_frames: usize,
    sample_fps: Binary32,
) -> (indices: Vec<usize>)
    ensures
        indices@ == minimax_m3_indices(*source, sample_fps),
{
    let total_frames = source.total_frames;
    let video_fps = source.original_fps;
    let fps = sample_fps.to_double();
    let mut indices: Vec<usize> = Vec::new();
    if total_frames == 0 {
        return indices;
    }
    indices.push(0);
    if !(video_fps.is_known() && fps.is_known()) {
        return indices;
    }
    let one = Binary64::from_u64(1);
    let interval = one.over(fps);
    // The epsilon keeps a frame landing exactly on the boundary from being
    // picked twice.
    let eps = one.over(Binary64::from_u64(10000));
    let mut last: usize = 0;
    let ghost all = minimax_m3_indices(*source, sample_fps);
    loop
        invariant_except_break
            last < total_frames,
            interval@ == FloatValue::of(1).over(sample_fps@),
            eps@ == FloatValue::of(1).over(FloatValue::of(10000)),
            indices@ + kept_after(total_frames as int, video_fps@, sample_fps@, last as int) =~= all,
        ensures
            indices@ == all,
        decreases total_frames - last,
    {
        let kept = Binary64::from_usize(last).over(video_fps);
        let target = kept.plus(interval).minus(eps);
        let mut frame: usize = target.times(video_fps).ceil().to_usize();
        if frame < last + 1 {
            frame = last + 1;
        }
        if frame >= total_frames {
            break;
        }
        indices.push(frame);
        last = frame;
    }
    indices
}

/// Maximum images accepted in one request.
pub const MAX_IMAGES_PER_REQUEST: usize = 200;

/// Maximum videos accepted in one request.
pub const MAX_VIDEOS_PER_REQUEST: usize = 20;

/// MiniMax-M3 vision spec.
///
/// M3's chat template renders a bare `]<]image[>[` (or `]<]video[>[`) with no
/// surrounding markers, so this spec owns the whole wrapper: each placeholder
/// expands to `<start> + N * <pad> + <end>`.
///
/// The start/end markers are modality-specific: M3's vocabulary carries a
/// separate `]<]start of video[>[` / `]<]end of video[>[` pair alongside the
/// image one.
pub struct MiniMaxM3VisionSpec;

/// The markers around one modality's features.
pub open spec fn markers(modality: Modality) -> Result<(Seq<char>, Seq<char>), RegistryErrorView> {
    match modality {
        Modality::Image => Ok(("]<]start of image[>["@, "]<]end of image[>["@)),
        Modality::Video => Ok(("]<]start of video[>["@, "]<]end of video[>["@)),
        Modality::Audio => Err(registry::unsupported("minimax_m3"@, modality)),
    }
}

/// The id that the configuration declares, else the vocabulary's.
pub open spec fn declared_or_known<T: Tokenizer>(
    metadata: ModelMetadata<T>,
    field: Seq<char>,
    token: Seq<char>,
) -> Result<TokenId, RegistryErrorView> {
    match metadata.number(field) {
        Some(id) => Ok(id as TokenId),
        None => metadata.vocabulary_id(token),
    }
}

/// The id of an image feature.
pub open spec fn image_pad<T: Tokenizer>(metadata: ModelMetadata<T>) -> Result<
    TokenId,
    RegistryErrorView,
> {
    declared_or_known(metadata, "image_token_index"@, "]<]image[>["@)
}

/// The id of a video feature.
pub open spec fn video_pad<T: Tokenizer>(metadata: ModelMetadata<T>) -> Result<
    TokenId,
    RegistryErrorView,
> {
    declared_or_known(metadata, "video_token_index"@, "]<]video[>["@)
}

/// `start`, `count` features, `end`.
pub open spec fn block(start: TokenId, pad: TokenId, count: nat, end: TokenId) -> Seq<TokenId> {
    seq![start] + types::repeated(pad, count) + seq![end]
}

/// One media item's replacement: its features between two markers, which are no
/// features themselves.
pub open spec fn wrapped<T: Tokenizer>(
    metadata: ModelMetadata<T>,
    modality: Modality,
    placeholder: Seq<char>,
    pad: TokenId,
    count: usize,
) -> Result<PromptReplacementView, RegistryErrorView> {
    match markers(modality) {
        Err(e) => Err(e),
        Ok((start_token, end_token)) => match metadata.vocabulary_id(start_token) {
            Err(e) => Err(e),
            Ok(start) => match metadata.vocabulary_id(end_token) {
                Err(e) => Err(e),
                Ok(end) => Ok(
                    PromptReplacementView {
                        feature_ranges: Some(seq![PlaceholderRange { offset: 1, length: count }]),
                        ..PromptReplacementView::plain(
                            modality,
                            placeholder,
                            block(start, pad, count as nat, end),
                        )
                    },
                ),
            },
        },
    }
}

/// One wrapped replacement per media item.
pub open spec fn wrapped_item<T: Tokenizer>(
    metadata: ModelMetadata<T>,
    preprocessed: PreprocessedEncoderInputs,
    modality: Modality,
    placeholder: Seq<char>,
    pad: TokenId,
) -> spec_fn(int) -> Result<PromptReplacementView, RegistryErrorView> {
    |i: int|
        wrapped(metadata, modality, placeholder, pad, preprocessed.feature_token_counts@[i])
}

/// The sampled source frames and the source's frame rate, where both are there
/// and the rate is known.
pub open spec fn frame_times(preprocessed: PreprocessedEncoderInputs) -> Option<
    (Seq<i64>, FloatValue),
> {
    match preprocessed.integers_at("video_frames_indices"@) {
        Some((indices, _)) => if indices.len() == 0 {
            None
        } else {
            match preprocessed.first_number_at("video_source_fps"@) {
                Some(fps) => if fps@.is_known() {
                    Some((indices, fps@))
                } else {
                    None
                },
                None => None,
            }
        },
        None => None,
    }
}

/// The source time of a temporal frame, in seconds: that of the first source
/// frame it was made from, or of the last there is.
pub open spec fn frame_seconds(
    indices: Seq<i64>,
    fps: FloatValue,
    patch: nat,
    frame: int,
) -> FloatValue {
    let at = if frame * patch < indices.len() {
        frame * patch
    } else {
        indices.len() - 1
    };
    FloatValue::of(indices[at] as int).over(fps)
}

/// The marker that gives a frame's time.
pub open spec fn time_marker(seconds: FloatValue) -> Seq<char> {
    "]<]"@ + display::one_decimal(seconds) + " seconds[>["@
}

/// How many source frames make one temporal frame.
pub open spec fn temporal_patch<T: Tokenizer>(metadata: ModelMetadata<T>) -> u32 {
    match metadata.number_at(seq!["img_token_compression_config"@, "temporal_patch_size"@]) {
        Some(n) => n,
        None => 2,
    }
}

/// One temporal frame: its time where it is known, and its features between the
/// video markers.
pub open spec fn frame_block<T: Tokenizer>(
    metadata: ModelMetadata<T>,
    times: Option<(Seq<i64>, FloatValue)>,
    start: TokenId,
    pad: TokenId,
    per_frame: nat,
    end: TokenId,
) -> spec_fn(int) -> Result<Seq<TokenId>, RegistryErrorView> {
    |frame: int|
        match times {
            None => Ok(block(start, pad, per_frame, end)),
            Some((indices, fps)) => match registry::text_ids(
                *metadata.tokenizer,
                "minimax_m3"@,
                time_marker(
                    frame_seconds(indices, fps, temporal_patch(metadata) as nat, frame),
                ),
            ) {
                Ok(ids) => Ok(ids + block(start, pad, per_frame, end)),
                Err(e) => Err(e),
            },
        }
}

/// Where the features lie: in each frame's block, before its last token.
pub open spec fn frame_ranges(blocks: Seq<Seq<TokenId>>, per_frame: usize) -> Seq<
    PlaceholderRange,
> {
    Seq::new(
        blocks.len(),
        |i: int|
            PlaceholderRange {
                offset: (registry::joined(blocks.take(i)).len() + blocks[i].len() - per_frame
                    - 1) as usize,
                length: per_frame,
            },
    )
}

/// The frame blocks of a video and where its features lie; nothing where the
/// layout cannot apply.
pub open spec fn framed<T: Tokenizer>(
    metadata: ModelMetadata<T>,
    preprocessed: PreprocessedEncoderInputs,
    pad: TokenId,
    count: usize,
    grid_t: usize,
) -> Result<Option<(Seq<TokenId>, Seq<PlaceholderRange>)>, RegistryErrorView> {
    if grid_t <= 1 || count == 0 || count % grid_t != 0 {
        Ok(None)
    } else {
        match metadata.vocabulary_id("]<]start of video[>["@) {
            Err(e) => Err(e),
            Ok(start) => match metadata.vocabulary_id("]<]end of video[>["@) {
                Err(e) => Err(e),
                Ok(end) => {
                    let per_frame = count / grid_t;
                    match registry::collected(
                        frame_block(
                            metadata,
                            frame_times(preprocessed),
                            start,
                            pad,
                            per_frame as nat,
                            end,
                        ),
                        grid_t as nat,
                    ) {
                        Err(e) => Err(e),
                        Ok(blocks) => Ok(
                            Some((registry::joined(blocks), frame_ranges(blocks, per_frame))),
                        ),
                    }
                },
            },
        }
    }
}

/// What a result of [`MiniMaxM3VisionSpec::per_frame_video_tokens`] says.
pub open spec fn framed_viewed(
    r: RegistryResult<Option<(Vec<TokenId>, Vec<PlaceholderRange>)>>,
) -> Result<Option<(Seq<TokenId>, Seq<PlaceholderRange>)>, RegistryErrorView> {
    match r {
        Ok(Some((tokens, ranges))) => Ok(Some((tokens@, ranges@))),
        Ok(None) => Ok(None),
        Err(e) => Err(e@),
    }
}

/// One video's replacement: frame by frame where that layout applies, else in
/// one block.
pub open spec fn video_item<T: Tokenizer>(
    metadata: ModelMetadata<T>,
    preprocessed: PreprocessedEncoderInputs,
    pad: TokenId,
) -> spec_fn(int) -> Result<PromptReplacementView, RegistryErrorView> {
    |i: int|
        {
            let count = preprocessed.feature_token_counts@[i];
            let by_frame = match preprocessed.single_grid_t() {
                Some(grid_t) => framed(metadata, preprocessed, pad, count, grid_t),
                None => Ok(None),
            };
            match by_frame {
                Err(e) => Err(e),
                Ok(Some((tokens, ranges))) => Ok(
                    PromptReplacementView {
                        feature_ranges: Some(ranges),
                        ..PromptReplacementView::plain(Modality::Video, "]<]video[>["@, tokens)
                    },
                ),
                Ok(None) => wrapped(metadata, Modality::Video, "]<]video[>["@, pad, count),
            }
        }
}

/// What images are replaced by.
pub open spec fn image_replacements<T: Tokenizer>(
    metadata: ModelMetadata<T>,
    preprocessed: PreprocessedEncoderInputs,
) -> Result<Seq<PromptReplacementView>, RegistryErrorView> {
    match image_pad(metadata) {
        Err(e) => Err(e),
        Ok(pad) => registry::collected(
            wrapped_item(metadata, preprocessed, Modality::Image, "]<]image[>["@, pad),
            preprocessed.feature_token_counts@.len(),
        ),
    }
}

/// What videos are replaced by.
pub open spec fn video_replacements<T: Tokenizer>(
    metadata: ModelMetadata<T>,
    preprocessed: PreprocessedEncoderInputs,
) -> Result<Seq<PromptReplacementView>, RegistryErrorView> {
    match video_pad(metadata) {
        Err(e) => Err(e),
        Ok(pad) => registry::collected(
            video_item(metadata, preprocessed, pad),
            preprocessed.feature_token_counts@.len(),
        ),
    }
}

impl MiniMaxM3VisionSpec {
    /// The structural markers wrapping one modality's feature run.
    pub fn wrapper_tokens(modality: Modality) -> (r: RegistryResult<(&'static str, &'static str)>)
        ensures
            match r {
                Ok((start, end)) => markers(modality) == Ok::<
                    (Seq<char>, Seq<char>),
                    RegistryErrorView,
                >((start@, end@)),
                Err(e) => markers(modality) == Err::<(Seq<char>, Seq<char>), RegistryErrorView>(e@),
            },
    {
        match modality {
            Modality::Image => Ok(("]<]start of image[>[", "]<]end of image[>[")),
            Modality::Video => Ok(("]<]start of video[>[", "]<]end of video[>[")),
            Modality::Audio => Err(
                ModelRegistryError::UnsupportedModality { spec: "minimax_m3", modality },
            ),
        }
    }

    /// The repeated feature token for images.
    ///
    /// `image_token_index` is the checkpoint's own declaration; the tokenizer
    /// lookup is the fallback for checkpoints that omit it.
    pub fn image_token_id<T: Tokenizer>(metadata: &ModelMetadata<T>) -> (r: RegistryResult<TokenId>)
        ensures
            registry::viewed(r) == image_pad(*metadata),
    {
        match metadata.config_field("image_token_index") {
            Some(id) => Ok(id as TokenId),
            None => metadata.token_id("]<]image[>["),
        }
    }

    /// The repeated feature token for videos.
    pub fn video_token_id<T: Tokenizer>(metadata: &ModelMetadata<T>) -> (r: RegistryResult<TokenId>)
        ensures
            registry::viewed(r) == video_pad(*metadata),
    {
        match metadata.config_field("video_token_index") {
            Some(id) => Ok(id as TokenId),
            None => metadata.token_id("]<]video[>["),
        }
    }

    /// Whether the checkpoint declares video support.
    pub fn supports_video<T: Tokenizer>(metadata: &ModelMetadata<T>) -> (supported: bool)
        ensures
            supported == video_pad(*metadata) is Ok,
    {
        metadata.config_field("video_token_index").is_some() || metadata.token_id(
            "]<]video[>[",
        ).is_ok()
    }

    /// Build `[start] + N * pad + [end]` for one media item.
    ///
    /// The encoder features occupy only the padded middle; the two markers around
    /// them are structural. `structural_prefix` stays 0: it counts markers the
    /// chat template emits before the placeholder, and M3's template emits a bare
    /// one.
    pub fn wrapped_replacement<T: Tokenizer>(
        metadata: &ModelMetadata<T>,
        modality: Modality,
        placeholder_token: &str,
        pad_token_id: TokenId,
        num_tokens: usize,
    ) -> (r: RegistryResult<PromptReplacement>)
        ensures
            registry::viewed(r) == wrapped(
                *metadata,
                modality,
                placeholder_token@,
                pad_token_id,
                num_tokens,
            ),
    {
        let (start_token, end_token) = match Self::wrapper_tokens(modality) {
            Ok(pair) => pair,
            Err(e) => return Err(e),
        };
        let start_id = match metadata.token_id(start_token) {
            Ok(id) => id,
            Err(e) => return Err(e),
        };
        let end_id = match metadata.token_id(end_token) {
            Ok(id) => id,
            Err(e) => return Err(e),
        };
        let mut tokens: Vec<TokenId> = Vec::new();
        append_block(&mut tokens, start_id, pad_token_id, num_tokens, end_id);
        proof {
            assert(tokens@ =~= block(start_id, pad_token_id, num_tokens as nat, end_id));
        }
        Ok(
            PromptReplacement::sequence(modality, placeholder_token, tokens).with_feature_span(
                1,
                num_tokens,
            ),
        )
    }

    /// Temporal grid depth for one video, from `video_grid_thw[0]`.
    pub fn video_grid_t(preprocessed: &PreprocessedEncoderInputs) -> (r: Option<usize>)
        ensures
            r == preprocessed.single_grid_t(),
    {
        preprocessed.video_grid_depth()
    }

    /// The sampled source-frame indices and source fps carried through the video
    /// processor, when available. Both must be present and sane.
    pub fn video_frame_timestamps(preprocessed: &PreprocessedEncoderInputs) -> (r: Option<
        (Vec<i64>, Binary64),
    >)
        ensures
            r is Some == frame_times(*preprocessed) is Some,
            r matches Some((indices, fps)) ==> frame_times(*preprocessed) == Some(
                (indices@, fps@),
            ),
    {
        let indices = match preprocessed.int_tensor("video_frames_indices") {
            Some((data, _)) => data,
            None => return None,
        };
        if indices.len() == 0 {
            return None;
        }
        let source_fps = match preprocessed.first_number("video_source_fps") {
            Some(fps) => fps.to_double(),
            None => return None,
        };
        if source_fps.is_known() {
            let indices = indices.clone();
            proof {
                assert(indices@ =~= frame_times(*preprocessed)->Some_0.0);
            }
            Some((indices, source_fps))
        } else {
            None
        }
    }

    pub fn encode<T: Tokenizer>(metadata: &ModelMetadata<T>, text: &str) -> (r: RegistryResult<
        Vec<TokenId>,
    >)
        ensures
            registry::viewed(r) == registry::text_ids(*metadata.tokenizer, "minimax_m3"@, text@),
    {
        encode_for(metadata.tokenizer, "minimax_m3", text)
    }

    /// Build the per-frame video body.
    ///
    /// M3 lays video out as one `]<]start of video[>[` .. `]<]end of video[>[`
    /// block per temporal frame, not one flat block over the whole clip:
    ///
    /// ```text
    /// for frame in 0..grid_t:
    ///     [start] + [video_token] * M + [end]
    /// ```
    ///
    /// When the sampled frame indices and the source fps were carried through,
    /// each frame is additionally prefixed with a `]<]X.X seconds[>[` marker.
    ///
    /// Returns `None` when the layout cannot apply (single frame, or a token count
    /// that does not divide evenly), leaving the caller on the single-block path.
    pub fn per_frame_video_tokens<T: Tokenizer>(
        metadata: &ModelMetadata<T>,
        preprocessed: &PreprocessedEncoderInputs,
        pad_token_id: TokenId,
        num_tokens: usize,
        grid_t: usize,
    ) -> (r: RegistryResult<Option<(Vec<TokenId>, Vec<PlaceholderRange>)>>)
        ensures
            framed_viewed(r) == framed(
                *metadata,
                *preprocessed,
                pad_token_id,
                num_tokens,
                grid_t,
            ),
    {
        if grid_t <= 1 || num_tokens == 0 || num_tokens % grid_t != 0 {
            return Ok(None);
        }
        let start_id = match metadata.token_id("]<]start of video[>[") {
            Ok(id) => id,
            Err(e) => return Err(e),
        };
        let end_id = match metadata.token_id("]<]end of video[>[") {
            Ok(id) => id,
            Err(e) => return Err(e),
        };
        let timestamps = Self::video_frame_timestamps(preprocessed);
        let temporal_patch_size: u32 = match metadata.config_field_in(
            "img_token_compression_config",
            "temporal_patch_size",
        ) {
            Some(n) => n,
            None => 2,
        };
        let per_frame: usize = num_tokens / grid_t;
        let mut tokens: Vec<TokenId> = Vec::new();
        let mut ranges: Vec<PlaceholderRange> = Vec::new();
        let mut frame_idx: usize = 0;
        let ghost f = frame_block(
            *metadata,
            frame_times(*preprocessed),
            start_id,
            pad_token_id,
            per_frame as nat,
            end_id,
        );
        let ghost mut blocks: Seq<Seq<TokenId>> = Seq::empty();
        proof {
            assert(frame_ranges(blocks, per_frame) =~= Seq::empty());
        }
        while frame_idx < grid_t
            invariant
                frame_idx <= grid_t,
                !(grid_t <= 1 || num_tokens == 0 || num_tokens % grid_t != 0),
                per_frame == num_tokens / grid_t,
                metadata.vocabulary_id("]<]start of video[>["@) == Ok::<
                    TokenId,
                    RegistryErrorView,
                >(start_id),
                metadata.vocabulary_id("]<]end of video[>["@) == Ok::<TokenId, RegistryErrorView>(
                    end_id,
                ),
                f == frame_block(
                    *metadata,
                    frame_times(*preprocessed),
                    start_id,
                    pad_token_id,
                    per_frame as nat,
                    end_id,
                ),
                timestamps is Some == frame_times(*preprocessed) is Some,
                timestamps matches Some((indices, fps)) ==> frame_times(*preprocessed) == Some(
                    (indices@, fps@),
                ),
                temporal_patch_size == temporal_patch(*metadata),
                registry::collected(f, frame_idx as nat) == Ok::<
                    Seq<Seq<TokenId>>,
                    RegistryErrorView,
                >(blocks),
                blocks.len() == frame_idx,
                tokens@ == registry::joined(blocks),
                ranges@ == frame_ranges(blocks, per_frame),
            decreases grid_t - frame_idx,
        {
            let ghost before = tokens@;
            let ghost mut lead: Seq<TokenId> = Seq::empty();
            if let Some((indices, source_fps)) = &timestamps {
                let at = clamped_product(frame_idx, temporal_patch_size, indices.len());
                let seconds = Binary64::from_i64(indices[at]).over(*source_fps);
                let text = time_marker_text(seconds);
                match Self::encode(metadata, text.as_str()) {
                    Ok(ids) => {
                        proof {
                            lead = ids@;
                        }
                        let mut ids = ids;
                        tokens.append(&mut ids);
                    },
                    Err(e) => {
                        proof {
                            assert(f(frame_idx as int) == Err::<Seq<TokenId>, RegistryErrorView>(
                                e@,
                            ));
                            registry::lemma_first_error(f, (frame_idx + 1) as nat, grid_t as nat);
                        }
                        return Err(e);
                    },
                }
            }
            proof {
                assert(tokens@ =~= before + lead);
            }
            let ghost body = block(start_id, pad_token_id, per_frame as nat, end_id);
            tokens.push(start_id);
            ranges.push(PlaceholderRange { offset: tokens.len(), length: per_frame });
            append_repeated(&mut tokens, pad_token_id, per_frame);
            tokens.push(end_id);
            proof {
                let next = lead + body;
                assert(tokens@ =~= before + next);
                assert(f(frame_idx as int) == Ok::<Seq<TokenId>, RegistryErrorView>(next)) by {
                    assert(Seq::<TokenId>::empty() + body =~= body);
                }
                let more = blocks.push(next);
                assert(more.drop_last() =~= blocks);
                assert forall|i: int| 0 <= i < blocks.len() implies #[trigger] more.take(i)
                    == blocks.take(i) by {
                    assert(more.take(i) =~= blocks.take(i));
                }
                assert(more.take(blocks.len() as int) =~= blocks);
                assert(frame_ranges(more, per_frame) =~= frame_ranges(blocks, per_frame).push(
                    ranges@.last(),
                ));
                blocks = more;
            }
            frame_idx = frame_idx + 1;
        }
        Ok(Some((tokens, ranges)))
    }
}

/// Appends `start`, `count` features and `end`.
fn append_block(
    tokens: &mut Vec<TokenId>,
    start: TokenId,
    pad: TokenId,
    count: usize,
    end: TokenId,
)
    ensures
        final(tokens)@ == old(tokens)@ + block(start, pad, count as nat, end),
{
    tokens.push(start);
    append_repeated(tokens, pad, count);
    tokens.push(end);
    proof {
        assert(tokens@ =~= old(tokens)@ + block(start, pad, count as nat, end));
    }
}

/// `a * b`, or the last index below `len` where that is less.
fn clamped_product(a: usize, b: u32, len: usize) -> (r: usize)
    requires
        len > 0,
    ensures
        r == if a * b < len {
            a * b
        } else {
            len - 1
        },
{
    proof {
        assert(a * b <= 0xFFFF_FFFF_FFFF_FFFF * 0xFFFF_FFFF) by (nonlinear_arith)
            requires
                a <= 0xFFFF_FFFF_FFFF_FFFF,
                b <= 0xFFFF_FFFF,
        ;
    }
    let product: u128 = a as u128 * b as u128;
    if product < len as u128 {
        product as usize
    } else {
        len - 1
    }
}

fn time_marker_text(seconds: Binary64) -> (r: String)
    ensures
        r@ == time_marker(seconds@),
{
    let mut r = "]<]".to_owned();
    seconds.append_one_decimal(&mut r);
    r.append(" seconds[>[");
    r
}

/// Whether a checkpoint is an M3.
pub open spec fn is_m3<T: Tokenizer>(metadata: ModelMetadata<T>) -> bool {
    let id = text::lowered(metadata.model_id@);
    metadata.model_type() == Some("minimax_m3_vl"@) || (text::contains(id, "minimax"@)
        && text::contains(id, "m3"@))
}

/// How M3 videos are sampled: once a second and up to 768 frames, unless the
/// checkpoint says otherwise.
pub open spec fn fetch_config(config: Option<&PreProcessorConfig>) -> VideoFetchConfig {
    VideoFetchConfig {
        min_frames: 1,
        max_frames: match config {
            Some(c) => match c.count_at("max_frames"@) {
                Some(n) => n,
                None => 768,
            },
            None => 768,
        },
        sample_fps: match config {
            Some(c) => match c.single_at("fps"@) {
                Some(fps) => fps,
                None => Binary32 { bits: ONE_BITS },
            },
            None => Binary32 { bits: ONE_BITS },
        },
        strategy: VideoSamplingStrategy::MiniMaxM3,
        max_long_side_pixel: None,
    }
}

/// The tensors' layouts: pixels are flat over patches, grids have one row per
/// item.
pub open spec fn tensor_layouts() -> Map<Seq<char>, FieldLayoutView> {
    Map::<Seq<char>, FieldLayoutView>::empty().insert(
        "pixel_values"@,
        FieldLayoutView::Flat { sizes_key: "patches_per_image"@ },
    ).insert("image_grid_thw"@, FieldLayoutView::Batched).insert(
        "patches_per_image"@,
        FieldLayoutView::Batched,
    ).insert(
        "pixel_values_videos"@,
        FieldLayoutView::Flat { sizes_key: "patches_per_video"@ },
    ).insert("video_grid_thw"@, FieldLayoutView::Batched).insert(
        "patches_per_video"@,
        FieldLayoutView::Batched,
    )
}

impl MiniMaxM3VisionSpec {
    pub fn replacements_for<T: Tokenizer>(
        metadata: &ModelMetadata<T>,
        preprocessed: &PreprocessedEncoderInputs,
        modality: Modality,
        placeholder_token: &str,
        pad_token_id: TokenId,
    ) -> (r: RegistryResult<Vec<PromptReplacement>>)
        ensures
            registry::replacements_viewed(r) == registry::collected(
                wrapped_item(*metadata, *preprocessed, modality, placeholder_token@, pad_token_id),
                preprocessed.feature_token_counts@.len(),
            ),
            r matches Ok(all) ==> all@.len() == preprocessed.feature_token_counts@.len(),
            r matches Ok(all) ==> registry::all_of(all@, modality),
    {
        let counts = &preprocessed.feature_token_counts;
        let mut all: Vec<PromptReplacement> = Vec::new();
        let mut i: usize = 0;
        let ghost f = wrapped_item(
            *metadata,
            *preprocessed,
            modality,
            placeholder_token@,
            pad_token_id,
        );
        proof {
            assert(registry::views(all@) =~= Seq::empty());
        }
        while i < counts.len()
            invariant
                i <= counts.len(),
                counts == &preprocessed.feature_token_counts,
                f == wrapped_item(
                    *metadata,
                    *preprocessed,
                    modality,
                    placeholder_token@,
                    pad_token_id,
                ),
                all@.len() == i,
                registry::all_of(all@, modality),
                registry::collected(f, i as nat) == Ok::<
                    Seq<PromptReplacementView>,
                    RegistryErrorView,
                >(registry::views(all@)),
            decreases counts.len() - i,
        {
            match Self::wrapped_replacement(
                metadata,
                modality,
                placeholder_token,
                pad_token_id,
                counts[i],
            ) {
                Ok(one) => {
                    let ghost before = registry::views(all@);
                    all.push(one);
                    proof {
                        assert(registry::views(all@) =~= before.push(one@));
                    }
                },
                Err(e) => {
                    proof {
                        assert(f(i as int) == Err::<PromptReplacementView, RegistryErrorView>(e@));
                        registry::lemma_first_error(f, (i + 1) as nat, counts@.len());
                    }
                    return Err(e);
                },
            }
            i = i + 1;
        }
        Ok(all)
    }

    fn video_replacement<T: Tokenizer>(
        metadata: &ModelMetadata<T>,
        preprocessed: &PreprocessedEncoderInputs,
        pad_token_id: TokenId,
        grid_t: Option<usize>,
        i: usize,
    ) -> (r: RegistryResult<PromptReplacement>)
        requires
            i < preprocessed.feature_token_counts@.len(),
            grid_t == preprocessed.single_grid_t(),
        ensures
            registry::viewed(r) == video_item(*metadata, *preprocessed, pad_token_id)(i as int),
    {
        let num_tokens = preprocessed.feature_token_counts[i];
        if let Some(grid_t) = grid_t {
            match Self::per_frame_video_tokens(
                metadata,
                preprocessed,
                pad_token_id,
                num_tokens,
                grid_t,
            ) {
                Ok(Some((tokens, ranges))) => {
                    return Ok(
                        PromptReplacement::sequence(
                            Modality::Video,
                            "]<]video[>[",
                            tokens,
                        ).with_feature_ranges(ranges),
                    );
                },
                Err(e) => return Err(e),
                Ok(None) => {},
            }
        }
        Self::wrapped_replacement(
            metadata,
            Modality::Video,
            "]<]video[>[",
            pad_token_id,
            num_tokens,
        )
    }

    fn video_replacements_of<T: Tokenizer>(
        metadata: &ModelMetadata<T>,
        preprocessed: &PreprocessedEncoderInputs,
    ) -> (r: RegistryResult<Vec<PromptReplacement>>)
        ensures
            registry::replacements_viewed(r) == video_replacements(*metadata, *preprocessed),
            r matches Ok(all) ==> all@.len() == preprocessed.feature_token_counts@.len(),
            r matches Ok(all) ==> registry::all_of(all@, Modality::Video),
    {
        let pad_token_id = match Self::video_token_id(metadata) {
            Ok(id) => id,
            Err(e) => return Err(e),
        };
        let grid_t = Self::video_grid_t(preprocessed);
        let counts = &preprocessed.feature_token_counts;
        let mut all: Vec<PromptReplacement> = Vec::new();
        let mut i: usize = 0;
        let ghost f = video_item(*metadata, *preprocessed, pad_token_id);
        proof {
            assert(registry::views(all@) =~= Seq::empty());
        }
        while i < counts.len()
            invariant
                i <= counts.len(),
                counts == &preprocessed.feature_token_counts,
                video_pad(*metadata) == Ok::<TokenId, RegistryErrorView>(pad_token_id),
                grid_t == preprocessed.single_grid_t(),
                f == video_item(*metadata, *preprocessed, pad_token_id),
                all@.len() == i,
                registry::all_of(all@, Modality::Video),
                registry::collected(f, i as nat) == Ok::<
                    Seq<PromptReplacementView>,
                    RegistryErrorView,
                >(registry::views(all@)),
            decreases counts.len() - i,
        {
            match Self::video_replacement(metadata, preprocessed, pad_token_id, grid_t, i) {
                Ok(one) => {
                    let ghost before = registry::views(all@);
                    all.push(one);
                    proof {
                        assert(registry::views(all@) =~= before.push(one@));
                    }
                },
                Err(e) => {
                    proof {
                        registry::lemma_first_error(f, (i + 1) as nat, counts@.len());
                    }
                    return Err(e);
                },
            }
            i = i + 1;
        }
        Ok(all)
    }
}

impl ModelProcessorSpec for MiniMaxM3VisionSpec {
    open spec fn family(&self) -> Seq<char> {
        "minimax_m3"@
    }

    fn name(&self) -> (name: &'static str) {
        "minimax_m3"
    }

    fn matches<T: Tokenizer>(&self, metadata: &ModelMetadata<T>) -> (r: bool)
        ensures
            r == is_m3(*metadata),
    {
        if let Some(model_type) = metadata.config_model_type() {
            if same(model_type, "minimax_m3_vl") {
                return true;
            }
        }
        let id = ascii_lowercase(metadata.model_id);
        has(&id, "minimax") && has(&id, "m3")
    }

    fn placeholder_token<T: Tokenizer>(&self, metadata: &ModelMetadata<T>) -> (r: RegistryResult<
        String,
    >)
        ensures
            registry::viewed(r) == Ok::<Seq<char>, RegistryErrorView>("]<]image[>["@),
    {
        Ok("]<]image[>[".to_owned())
    }

    fn placeholder_token_id<T: Tokenizer>(&self, metadata: &ModelMetadata<T>) -> (r: RegistryResult<
        TokenId,
    >)
        ensures
            registry::viewed(r) == image_pad(*metadata),
    {
        Self::image_token_id(metadata)
    }

    fn placeholder_token_for<T: Tokenizer>(
        &self,
        metadata: &ModelMetadata<T>,
        modality: Modality,
    ) -> (r: RegistryResult<String>)
        ensures
            registry::viewed(r) == (match modality {
                Modality::Image => Ok("]<]image[>["@),
                Modality::Video => Ok("]<]video[>["@),
                Modality::Audio => Err(registry::unsupported("minimax_m3"@, modality)),
            }),
    {
        match modality {
            Modality::Image => self.placeholder_token(metadata),
            Modality::Video => Ok("]<]video[>[".to_owned()),
            Modality::Audio => Err(
                ModelRegistryError::UnsupportedModality { spec: self.name(), modality },
            ),
        }
    }

    fn placeholder_token_id_for<T: Tokenizer>(
        &self,
        metadata: &ModelMetadata<T>,
        modality: Modality,
    ) -> (r: RegistryResult<TokenId>)
        ensures
            registry::viewed(r) == (match modality {
                Modality::Image => image_pad(*metadata),
                Modality::Video => video_pad(*metadata),
                Modality::Audio => Err(registry::unsupported("minimax_m3"@, modality)),
            }),
    {
        match modality {
            Modality::Image => Self::image_token_id(metadata),
            Modality::Video => Self::video_token_id(metadata),
            Modality::Audio => Err(
                ModelRegistryError::UnsupportedModality { spec: self.name(), modality },
            ),
        }
    }

    fn modality_limits<T: Tokenizer>(&self, metadata: &ModelMetadata<T>) -> (r: RegistryResult<
        ModalityLimits,
    >)
        ensures
            r == Ok::<ModalityLimits, ModelRegistryError>(
                ModalityLimits {
                    image: Some(MAX_IMAGES_PER_REQUEST),
                    audio: None,
                    video: if video_pad(*metadata) is Ok {
                        Some(MAX_VIDEOS_PER_REQUEST)
                    } else {
                        None
                    },
                },
            ),
    {
        let video: Option<usize> = if Self::supports_video(metadata) {
            Some(MAX_VIDEOS_PER_REQUEST)
        } else {
            None
        };
        Ok(ModalityLimits { image: Some(MAX_IMAGES_PER_REQUEST), audio: None, video })
    }

    fn processor_kwargs<T: Tokenizer>(&self, metadata: &ModelMetadata<T>) -> (r: RegistryResult<
        Value,
    >)
        ensures
            r matches Ok(v) && json::json_contents(v) == json::nothing_but_an_object(),
    {
        Ok(empty_object())
    }

    fn video_fetch_config(&self, video_preprocessor_config: Option<&PreProcessorConfig>) -> (r:
        VideoFetchConfig)
        ensures
            r == fetch_config(video_preprocessor_config),
    {
        let (max_frames, sample_fps): (Option<usize>, Option<Binary32>) =
            match video_preprocessor_config {
            Some(config) => (config.get_extra_count("max_frames"), config.get_extra_single("fps")),
            None => (None, None),
        };
        VideoFetchConfig {
            // M3's ceil-interval sampling has no frame-count clamps; the min/max
            // fields only feed config validation.
            min_frames: 1,
            max_frames: match max_frames {
                Some(n) => n,
                None => 768,
            },
            // M3 samples at 1 fps by default.
            sample_fps: match sample_fps {
                Some(fps) => fps,
                None => Binary32 { bits: ONE_BITS },
            },
            strategy: VideoSamplingStrategy::MiniMaxM3,
            max_long_side_pixel: None,
        }
    }

    fn prompt_replacements<T: Tokenizer>(
        &self,
        metadata: &ModelMetadata<T>,
        preprocessed: &PreprocessedEncoderInputs,
    ) -> (r: RegistryResult<Vec<PromptReplacement>>)
        ensures
            registry::replacements_viewed(r) == image_replacements(*metadata, *preprocessed),
    {
        let pad_token_id = match Self::image_token_id(metadata) {
            Ok(id) => id,
            Err(e) => return Err(e),
        };
        Self::replacements_for(
            metadata,
            preprocessed,
            Modality::Image,
            "]<]image[>[",
            pad_token_id,
        )
    }

    fn prompt_replacements_for<T: Tokenizer>(
        &self,
        metadata: &ModelMetadata<T>,
        preprocessed: &PreprocessedEncoderInputs,
        modality: Modality,
    ) -> (r: RegistryResult<Vec<PromptReplacement>>)
        ensures
            registry::replacements_viewed(r) == (match modality {
                Modality::Image => image_replacements(*metadata, *preprocessed),
                Modality::Video => video_replacements(*metadata, *preprocessed),
                Modality::Audio => Err(registry::unsupported("minimax_m3"@, modality)),
            }),
    {
        match modality {
            Modality::Image => self.prompt_replacements(metadata, preprocessed),
            Modality::Video => Self::video_replacements_of(metadata, preprocessed),
            Modality::Audio => Err(
                ModelRegistryError::UnsupportedModality { spec: self.name(), modality },
            ),
        }
    }

    fn field_layouts(&self) -> (r: StringHashMap<FieldLayout>)
        ensures
            registry::layouts(r@) == tensor_layouts(),
    {
        let r = no_layouts();
        let r = with_layout(r, "pixel_values", FieldLayout::flat("patches_per_image"));
        let r = with_layout(r, "image_grid_thw", FieldLayout::Batched);
        let r = with_layout(r, "patches_per_image", FieldLayout::Batched);
        let r = with_layout(r, "pixel_values_videos", FieldLayout::flat("patches_per_video"));
        let r = with_layout(r, "video_grid_thw", FieldLayout::Batched);
        with_layout(r, "patches_per_video", FieldLayout::Batched)
    }

    fn keep_on_cpu_keys(&self) -> (keys: Vec<String>) {
        grid_keys()
    }
}

} // verus!
