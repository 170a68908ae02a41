//! Qwen3-VL, and the Qwen3.5 and later families that share its layout.
use crate::decimal;
use crate::decimal::append_signed_decimal;
use crate::encoder_inputs::PreprocessedEncoderInputs;
use crate::float::binary32::Binary32;
use crate::float::binary64::Binary64;
use crate::float::display;
use crate::float::value;
use crate::float::value::FloatValue;
use crate::json;
use crate::json::empty_object;
use crate::media::VideoFetchConfig;
use crate::registry;
use crate::registry::{
    grid_keys, no_layouts, to_token_ids, with_layout, ModelMetadata, ModelProcessorSpec,
    ModelRegistryError, RegistryErrorView, RegistryResult, Tokenizer,
};
use crate::text;
use crate::text::{ascii_lowercase, has, same};
use crate::types;
use crate::types::{
    append_repeated, FieldLayout, FieldLayoutView, Modality, ModalityLimits, PromptReplacement,
    PromptReplacementView, TokenId,
};
use crate::video_sampling;
use crate::video_sampling::{uniform_frame_indices, VideoSamplingStrategy, VideoSourceMeta};
use crate::vision::PreProcessorConfig;
use serde_json::Value;
use vstd::hash_map::StringHashMap;
use vstd::prelude::*;

verus! {

/// One half.
pub open spec fn half() -> FloatValue {
    FloatValue::of(1).over(FloatValue::of(2))
}

/// Rounding with ties to the even neighbour.
pub open spec fn half_to_even(v: FloatValue) -> FloatValue {
    let floor = v.floor();
    let fraction = v.minus(floor);
    if fraction.less(half()) {
        floor
    } else if half().less(fraction) {
        floor.plus(FloatValue::of(1))
    } else if floor is Finite && floor->units % value::one() == 0 && (floor->units / value::one())
        % 2 == 0 {
        floor
    } else {
        floor.plus(FloatValue::of(1))
    }
}

/// How many frames Qwen3-VL takes: the scaled count, cut to an integer, at least
/// `min_frames`, at most `max_frames` and at most all there are.
pub open spec fn qwen3_vl_count(
    source: VideoSourceMeta,
    min_frames: usize,
    max_frames: usize,
    sample_fps: Binary32,
) -> usize {
    let count = video_sampling::to_index(video_sampling::scaled_count(source, sample_fps));
    let least = if count < min_frames {
        min_frames
    } else {
        count
    };
    let most = if max_frames < source.total_frames {
        max_frames
    } else {
        source.total_frames
    };
    if least > most {
        most
    } else {
        least
    }
}

/// `count` frames on a round-linspace grid over `[0, total - 1]`.
pub open spec fn round_grid(total: int, count: int) -> Seq<usize> {
    if count == 1 {
        seq![0usize]
    } else {
        Seq::new(
            count as nat,
            |i: int|
                video_sampling::to_index(half_to_even(video_sampling::grid_point(total, count, i))),
        )
    }
}

/// The frames that Qwen3-VL sampling picks.
pub open spec fn qwen3_vl_indices(
    source: VideoSourceMeta,
    min_frames: usize,
    max_frames: usize,
    sample_fps: Binary32,
) -> Seq<usize> {
    if source.total_frames == 0 {
        Seq::empty()
    } else if !source.original_fps@.is_known() {
        video_sampling::uniform_indices(source, min_frames, max_frames, sample_fps)
    } else {
        round_grid(
            source.total_frames as int,
            qwen3_vl_count(source, min_frames, max_frames, sample_fps) as int,
        )
    }
}

/// The frames of a clip for Qwen3-VL: the fps-scaled count is truncated, clamped to
/// `min(max(count, min_frames), max_frames, total_frames)`, then a linspace over
/// `[0, total_frames - 1]` is rounded with half-to-even ties. A count of zero picks
/// no frame.
///
/// Falls back to [`uniform_frame_indices`] when the source frame rate is
/// unknown, where the formula is undefined.
pub fn qwen3_vl_frame_indices(
    source: &VideoSourceMeta,
    min_frames: usize,
    max_frames: usize,
    sample_fps: Binary32,
) -> (indices: Vec<usize>)
    requires
        source.total_frames > 0 && !source.original_fps@.is_known() ==> min_frames <= max_frames,
    ensures
        indices@ == qwen3_vl_indices(*source, min_frames, max_frames, sample_fps),
{
    let total_frames = source.total_frames;
    let mut indices: Vec<usize> = Vec::new();
    if total_frames == 0 {
        return indices;
    }
    if !source.original_fps.is_known() {
        return uniform_frame_indices(source, min_frames, max_frames, sample_fps);
    }
    let scaled = Binary64::from_usize(total_frames).over(source.original_fps).times(
        sample_fps.to_double(),
    );
    let mut count: usize = scaled.to_usize();
    if count < min_frames {
        count = min_frames;
    }
    let upper: usize = if max_frames < total_frames {
        max_frames
    } else {
        total_frames
    };
    if count > upper {
        count = upper;
    }
    if count == 0 {
        proof {
            assert(round_grid(total_frames as int, 0) =~= Seq::empty());
        }
        return indices;
    }
    if count == 1 {
        indices.push(0);
        return indices;
    }
    let last = Binary64::from_usize(total_frames - 1);
    let denom = Binary64::from_usize(count - 1);
    let mut i: usize = 0;
    while i < count
        invariant
            i <= count,
            count >= 2,
            total_frames >= 1,
            last@ == FloatValue::of(total_frames - 1),
            denom@ == FloatValue::of(count - 1),
            indices@ == round_grid(total_frames as int, count as int).take(i as int),
        decreases count - i,
    {
        let index = round_half_to_even(Binary64::from_usize(i).times(last).over(denom)).to_usize();
        indices.push(index);
        proof {
            let grid = round_grid(total_frames as int, count as int);
            assert(grid.take(i + 1) =~= grid.take(i as int).push(grid[i as int]));
        }
        i = i + 1;
    }
    proof {
        let grid = round_grid(total_frames as int, count as int);
        assert(grid.take(grid.len() as int) =~= grid);
    }
    indices
}

/// Ties go to the even neighbour.
pub fn round_half_to_even(v: Binary64) -> (r: Binary64)
    ensures
        r@ == half_to_even(v@),
{
    let floor = v.floor();
    let fraction = v.minus(floor);
    let one = Binary64::from_u64(1);
    let half = one.over(Binary64::from_u64(2));
    if fraction.less(half) {
        floor
    } else if half.less(fraction) {
        floor.plus(one)
    } else if floor.is_even_integer() {
        floor
    } else {
        floor.plus(one)
    }
}

/// How Qwen3 videos are sampled: by the checkpoint's own numbers, by the general
/// defaults where it has none.
pub open spec fn fetch_config(config: Option<&PreProcessorConfig>) -> VideoFetchConfig {
    let defaults = VideoFetchConfig::spec_default();
    VideoFetchConfig {
        min_frames: match config {
            Some(c) => match c.count_at("min_frames"@) {
                Some(n) => n,
                None => defaults.min_frames,
            },
            None => defaults.min_frames,
        },
        max_frames: match config {
            Some(c) => match c.count_at("max_frames"@) {
                Some(n) => n,
                None => defaults.max_frames,
            },
            None => defaults.max_frames,
        },
        sample_fps: match config {
            Some(c) => match c.single_at("fps"@) {
                Some(fps) => fps,
                None => defaults.sample_fps,
            },
            None => defaults.sample_fps,
        },
        strategy: VideoSamplingStrategy::Qwen3Vl,
        max_long_side_pixel: defaults.max_long_side_pixel,
    }
}

/// Shared `video_fetch_config` of the video-capable Qwen3 specs: Qwen3-VL sampling
/// with parameters from `video_preprocessor_config.json` when the checkpoint
/// provides them, defaults otherwise.
pub fn qwen3_video_fetch_config(video_preprocessor_config: Option<&PreProcessorConfig>) -> (r:
    VideoFetchConfig)
    ensures
        r == fetch_config(video_preprocessor_config),
{
    let mut r = VideoFetchConfig::default();
    r.strategy = VideoSamplingStrategy::Qwen3Vl;
    if let Some(config) = video_preprocessor_config {
        if let Some(n) = config.get_extra_count("min_frames") {
            r.min_frames = n;
        }
        if let Some(n) = config.get_extra_count("max_frames") {
            r.max_frames = n;
        }
        if let Some(fps) = config.get_extra_single("fps") {
            r.sample_fps = fps;
        }
    }
    r
}

/// Qwen3-VL vision spec.
pub struct Qwen3VLVisionSpec;

/// The id that the configuration declares.
pub open spec fn declared<T: Tokenizer>(metadata: ModelMetadata<T>, field: Seq<char>) -> Result<
    TokenId,
    RegistryErrorView,
> {
    match metadata.number(field) {
        Some(id) => Ok(id as TokenId),
        None => Err(RegistryErrorView::MissingConfigField { field }),
    }
}

/// The vocabulary's token of a declared id.
pub open spec fn token_named<T: Tokenizer>(
    metadata: ModelMetadata<T>,
    id: TokenId,
    field: Seq<char>,
) -> Result<Seq<char>, RegistryErrorView> {
    match metadata.tokenizer.token_of(id as u32) {
        Some(token) => Ok(token),
        None => Err(
            RegistryErrorView::TokenNotFound {
                token: field + ":"@ + decimal::signed_decimal(id as int),
            },
        ),
    }
}

/// The token of the id that the configuration declares.
pub open spec fn declared_token<T: Tokenizer>(
    metadata: ModelMetadata<T>,
    field: Seq<char>,
) -> Result<Seq<char>, RegistryErrorView> {
    match declared(metadata, field) {
        Ok(id) => token_named(metadata, id, field),
        Err(e) => Err(e),
    }
}

/// The ids of a text, none where it cannot be encoded.
pub open spec fn plain_ids<T: Tokenizer>(metadata: ModelMetadata<T>, text: Seq<char>) -> Seq<
    TokenId,
> {
    match metadata.tokenizer.encoding_of(text) {
        Some(ids) => registry::as_token_ids(ids),
        None => Seq::empty(),
    }
}

/// How many source frames make one temporal frame.
pub open spec fn temporal_patch<T: Tokenizer>(metadata: ModelMetadata<T>) -> u32 {
    match metadata.number_at(seq!["vision_config"@, "temporal_patch_size"@]) {
        Some(n) => n,
        None => 2,
    }
}

/// The rate that timestamps go by: temporal patch size over seconds per grid,
/// or 2 where that is unknown.
pub open spec fn effective_fps<T: Tokenizer>(
    metadata: ModelMetadata<T>,
    preprocessed: PreprocessedEncoderInputs,
) -> FloatValue {
    match preprocessed.first_number_at("video_second_per_grid"@) {
        Some(seconds) => {
            let fps = FloatValue::of(temporal_patch(metadata) as int).over(seconds@);
            if seconds@.is_known() && fps.is_known() {
                fps
            } else {
                FloatValue::of(2)
            }
        },
        None => FloatValue::of(2),
    }
}

/// The mean time of the source frames that make temporal frame `i`.
pub open spec fn patch_seconds(patch: int, fps: FloatValue, i: int) -> FloatValue {
    FloatValue::of(i).times(FloatValue::of(patch)).plus(
        FloatValue::of(patch).minus(FloatValue::of(1)).over(FloatValue::of(2)),
    ).over(fps)
}

/// A timestamp.
pub open spec fn timestamp(seconds: FloatValue) -> Seq<char> {
    "<"@ + display::one_decimal(seconds) + " seconds>"@
}

/// Temporal frame `i`: its timestamp and its features. The seam to the frame
/// before closes that one and opens this; the outer markers are the chat
/// template's.
pub open spec fn frame_block<T: Tokenizer>(
    metadata: ModelMetadata<T>,
    start: TokenId,
    pad: TokenId,
    per_frame: nat,
    end: TokenId,
    fps: FloatValue,
    i: int,
) -> Seq<TokenId> {
    let ids = plain_ids(metadata, timestamp(patch_seconds(temporal_patch(metadata) as int, fps, i)));
    let seam = if i > 0 {
        seq![end] + ids + seq![start]
    } else {
        ids
    };
    seam + types::repeated(pad, per_frame)
}

/// The first `n` temporal frames.
pub open spec fn frame_blocks<T: Tokenizer>(
    metadata: ModelMetadata<T>,
    start: TokenId,
    pad: TokenId,
    per_frame: nat,
    end: TokenId,
    fps: FloatValue,
    n: nat,
) -> Seq<Seq<TokenId>> {
    Seq::new(n, |i: int| frame_block(metadata, start, pad, per_frame, end, fps, i))
}

/// The tokens of a video frame by frame; nothing where that layout cannot apply.
pub open spec fn framed<T: Tokenizer>(
    metadata: ModelMetadata<T>,
    pad: TokenId,
    count: usize,
    grid_t: usize,
    fps: FloatValue,
) -> Option<Seq<TokenId>> {
    if grid_t <= 1 || count == 0 || count % grid_t != 0 {
        None
    } else {
        match metadata.number("vision_start_token_id"@) {
            None => None,
            Some(start) => match metadata.number("vision_end_token_id"@) {
                None => None,
                Some(end) => Some(
                    registry::joined(
                        frame_blocks(
                            metadata,
                            start as TokenId,
                            pad,
                            (count / grid_t) as nat,
                            end as TokenId,
                            fps,
                            grid_t as nat,
                        ),
                    ),
                ),
            },
        }
    }
}

/// What one image is replaced by.
pub open spec fn image_item(
    placeholder: Seq<char>,
    pad: TokenId,
    count: usize,
) -> PromptReplacementView {
    PromptReplacementView::plain(
        Modality::Image,
        placeholder,
        types::repeated(pad, count as nat),
    )
}

/// What one video is replaced by. The marker that the chat template emits before
/// the placeholder belongs to the range.
pub open spec fn video_item<T: Tokenizer>(
    metadata: ModelMetadata<T>,
    preprocessed: PreprocessedEncoderInputs,
    placeholder: Seq<char>,
    pad: TokenId,
    count: usize,
) -> PromptReplacementView {
    let by_frame = match preprocessed.single_grid_t() {
        Some(grid_t) => framed(
            metadata,
            pad,
            count,
            grid_t,
            effective_fps(metadata, preprocessed),
        ),
        None => None,
    };
    let tokens = match by_frame {
        Some(tokens) => tokens,
        None => types::repeated(pad, count as nat),
    };
    PromptReplacementView {
        structural_prefix: 1,
        ..PromptReplacementView::plain(Modality::Video, placeholder, tokens)
    }
}

/// What images are replaced by.
pub open spec fn image_replacements<T: Tokenizer>(
    metadata: ModelMetadata<T>,
    preprocessed: PreprocessedEncoderInputs,
) -> Result<Seq<PromptReplacementView>, RegistryErrorView> {
    let counts = preprocessed.feature_token_counts@;
    match declared(metadata, "image_token_id"@) {
        Err(e) => Err(e),
        Ok(pad) => match token_named(metadata, pad, "image_token_id"@) {
            Err(e) => Err(e),
            Ok(placeholder) => Ok(
                Seq::new(counts.len(), |i: int| image_item(placeholder, pad, counts[i])),
            ),
        },
    }
}

/// What videos are replaced by.
pub open spec fn video_replacements<T: Tokenizer>(
    metadata: ModelMetadata<T>,
    preprocessed: PreprocessedEncoderInputs,
) -> Result<Seq<PromptReplacementView>, RegistryErrorView> {
    let counts = preprocessed.feature_token_counts@;
    match declared(metadata, "video_token_id"@) {
        Err(e) => Err(e),
        Ok(pad) => match token_named(metadata, pad, "video_token_id"@) {
            Err(e) => Err(e),
            Ok(placeholder) => Ok(
                Seq::new(
                    counts.len(),
                    |i: int| video_item(metadata, preprocessed, placeholder, pad, counts[i]),
                ),
            ),
        },
    }
}

/// Whether a checkpoint is laid out as Qwen3-VL is.
pub open spec fn is_qwen3_vl<T: Tokenizer>(metadata: ModelMetadata<T>) -> bool {
    let id = text::lowered(metadata.model_id@);
    let model_type = metadata.model_type();
    ||| text::contains(id, "qwen3"@) && text::contains(id, "vl"@)
    ||| model_type == Some("qwen3_vl"@)
    ||| text::contains(id, "qwen3.5"@)
    ||| text::contains(id, "qwen3.6"@)
    ||| model_type == Some("qwen3_5"@)
    ||| model_type == Some("qwen3_5_moe"@)
    ||| model_type == Some("qwen4_exp"@)
}

/// The tensors' layouts: pixels are flat over patches, the rest has one row per
/// item.
pub open spec fn tensor_layouts() -> Map<Seq<char>, FieldLayoutView> {
    Map::<Seq<char>, FieldLayoutView>::empty().insert(
        "pixel_values"@,
        FieldLayoutView::Flat { sizes_key: "patches_per_image"@ },
    ).insert("image_grid_thw"@, FieldLayoutView::Batched).insert(
        "patches_per_image"@,
        FieldLayoutView::Batched,
    ).insert("video_grid_thw"@, FieldLayoutView::Batched).insert(
        "patches_per_video"@,
        FieldLayoutView::Batched,
    ).insert("video_second_per_grid"@, FieldLayoutView::Batched)
}

fn timestamp_text(seconds: Binary64) -> (r: String)
    ensures
        r@ == timestamp(seconds@),
{
    let mut r = "<".to_owned();
    seconds.append_one_decimal(&mut r);
    r.append(" seconds>");
    r
}

impl Qwen3VLVisionSpec {
    pub fn image_pad_token_id<T: Tokenizer>(metadata: &ModelMetadata<T>) -> (r: RegistryResult<
        TokenId,
    >)
        ensures
            registry::viewed(r) == declared(*metadata, "image_token_id"@),
    {
        match metadata.config_field("image_token_id") {
            Some(id) => Ok(id as TokenId),
            None => Err(
                ModelRegistryError::MissingConfigField { field: "image_token_id".to_owned() },
            ),
        }
    }

    pub fn video_pad_token_id<T: Tokenizer>(metadata: &ModelMetadata<T>) -> (r: RegistryResult<
        TokenId,
    >)
        ensures
            registry::viewed(r) == declared(*metadata, "video_token_id"@),
    {
        match metadata.config_field("video_token_id") {
            Some(id) => Ok(id as TokenId),
            None => Err(
                ModelRegistryError::MissingConfigField { field: "video_token_id".to_owned() },
            ),
        }
    }

    pub fn vision_start_token_id<T: Tokenizer>(metadata: &ModelMetadata<T>) -> (r: Option<TokenId>)
        ensures
            r == (match metadata.number("vision_start_token_id"@) {
                Some(id) => Some(id as TokenId),
                None => None,
            }),
    {
        match metadata.config_field("vision_start_token_id") {
            Some(id) => Some(id as TokenId),
            None => None,
        }
    }

    pub fn vision_end_token_id<T: Tokenizer>(metadata: &ModelMetadata<T>) -> (r: Option<TokenId>)
        ensures
            r == (match metadata.number("vision_end_token_id"@) {
                Some(id) => Some(id as TokenId),
                None => None,
            }),
    {
        match metadata.config_field("vision_end_token_id") {
            Some(id) => Some(id as TokenId),
            None => None,
        }
    }

    pub fn token_for_id<T: Tokenizer>(
        metadata: &ModelMetadata<T>,
        token_id: TokenId,
        field: &str,
    ) -> (r: RegistryResult<String>)
        ensures
            registry::viewed(r) == token_named(*metadata, token_id, field@),
    {
        match metadata.tokenizer.id_to_token(token_id as u32) {
            Some(token) => Ok(token),
            None => {
                let mut token = field.to_owned();
                token.append(":");
                append_signed_decimal(&mut token, token_id);
                Err(ModelRegistryError::TokenNotFound { token })
            },
        }
    }

    pub fn video_grid_t(preprocessed: &PreprocessedEncoderInputs) -> (r: Option<usize>)
        ensures
            r == preprocessed.single_grid_t(),
    {
        preprocessed.video_grid_depth()
    }

    pub fn encode_plain_text<T: Tokenizer>(metadata: &ModelMetadata<T>, text: &str) -> (r: Vec<
        TokenId,
    >)
        ensures
            r@ == plain_ids(*metadata, text@),
    {
        match metadata.tokenizer.encode_text(text) {
            Some(ids) => to_token_ids(&ids),
            None => Vec::new(),
        }
    }

    fn patch_size<T: Tokenizer>(metadata: &ModelMetadata<T>) -> (r: u32)
        ensures
            r == temporal_patch(*metadata),
    {
        match metadata.config_field_in("vision_config", "temporal_patch_size") {
            Some(n) => n,
            None => 2,
        }
    }

    /// Build the per-frame video placeholder body for the Qwen3-VL family.
    ///
    /// Qwen3-VL lays out video as one `<|vision_start|> .. <|vision_end|>` block
    /// per temporal frame with a `<seconds>` timestamp between frames. The chat
    /// template already supplies the outer pair, so this emits only the inner
    /// per-frame structure. Returns `None` when the layout can't apply
    /// (single-frame or ragged token counts), leaving the caller to fall back to a
    /// flat pad block.
    pub fn per_frame_video_tokens<T: Tokenizer>(
        metadata: &ModelMetadata<T>,
        pad_token_id: TokenId,
        num_tokens: usize,
        grid_t: usize,
        sample_fps: Binary64,
    ) -> (r: Option<Vec<TokenId>>)
        ensures
            r is Some == framed(
                *metadata,
                pad_token_id,
                num_tokens,
                grid_t,
                sample_fps@,
            ) is Some,
            r matches Some(tokens) ==> framed(
                *metadata,
                pad_token_id,
                num_tokens,
                grid_t,
                sample_fps@,
            ) == Some(tokens@),
    {
        if grid_t <= 1 || num_tokens == 0 || num_tokens % grid_t != 0 {
            return None;
        }
        let vision_start = match Self::vision_start_token_id(metadata) {
            Some(id) => id,
            None => return None,
        };
        let vision_end = match Self::vision_end_token_id(metadata) {
            Some(id) => id,
            None => return None,
        };
        let tokens_per_grid: usize = num_tokens / grid_t;
        let mut tokens: Vec<TokenId> = Vec::new();
        let one = Binary64::from_u64(1);
        let patch = Binary64::from_u64(Self::patch_size(metadata) as u64);
        let middle = patch.minus(one).over(Binary64::from_u64(2));
        let mut grid_idx: usize = 0;
        let ghost fps = sample_fps@;
        proof {
            assert(frame_blocks(
                *metadata,
                vision_start,
                pad_token_id,
                tokens_per_grid as nat,
                vision_end,
                fps,
                0,
            ) =~= Seq::empty());
        }
        while grid_idx < grid_t
            invariant
                grid_idx <= grid_t,
                fps == sample_fps@,
                patch@ == FloatValue::of(temporal_patch(*metadata) as int),
                middle@ == patch@.minus(FloatValue::of(1)).over(FloatValue::of(2)),
                tokens@ == registry::joined(
                    frame_blocks(
                        *metadata,
                        vision_start,
                        pad_token_id,
                        tokens_per_grid as nat,
                        vision_end,
                        fps,
                        grid_idx as nat,
                    ),
                ),
            decreases grid_t - grid_idx,
        {
            let ghost before = tokens@;
            let seconds = Binary64::from_usize(grid_idx).times(patch).plus(middle).over(sample_fps);
            if grid_idx > 0 {
                tokens.push(vision_end);
            }
            let text = timestamp_text(seconds);
            let mut ids = Self::encode_plain_text(metadata, text.as_str());
            tokens.append(&mut ids);
            if grid_idx > 0 {
                tokens.push(vision_start);
            }
            append_repeated(&mut tokens, pad_token_id, tokens_per_grid);
            proof {
                let now = frame_block(
                    *metadata,
                    vision_start,
                    pad_token_id,
                    tokens_per_grid as nat,
                    vision_end,
                    fps,
                    grid_idx as int,
                );
                assert(tokens@ =~= before + now);
                let more = frame_blocks(
                    *metadata,
                    vision_start,
                    pad_token_id,
                    tokens_per_grid as nat,
                    vision_end,
                    fps,
                    (grid_idx + 1) as nat,
                );
                assert(more.drop_last() =~= frame_blocks(
                    *metadata,
                    vision_start,
                    pad_token_id,
                    tokens_per_grid as nat,
                    vision_end,
                    fps,
                    grid_idx as nat,
                ));
            }
            grid_idx = grid_idx + 1;
        }
        Some(tokens)
    }

    /// Effective video sampling fps for prompt timestamps, derived from the
    /// preprocessor's `video_second_per_grid` so the decode-time effective fps, the
    /// processor, and the prompt timestamps stay consistent. Falls back to 2 when
    /// the value is missing or degenerate.
    pub fn video_sample_fps<T: Tokenizer>(
        metadata: &ModelMetadata<T>,
        preprocessed: &PreprocessedEncoderInputs,
    ) -> (r: Binary64)
        ensures
            r@ == effective_fps(*metadata, *preprocessed),
    {
        let default_sample_fps = Binary64::from_u64(2);
        let second_per_grid = match preprocessed.first_number("video_second_per_grid") {
            Some(seconds) => seconds.to_double(),
            None => return default_sample_fps,
        };
        if !second_per_grid.is_known() {
            return default_sample_fps;
        }
        let fps = Binary64::from_u64(Self::patch_size(metadata) as u64).over(second_per_grid);
        if fps.is_known() {
            fps
        } else {
            default_sample_fps
        }
    }

    fn video_replacements_of<T: Tokenizer>(
        metadata: &ModelMetadata<T>,
        preprocessed: &PreprocessedEncoderInputs,
    ) -> (r: RegistryResult<Vec<PromptReplacement>>)
        ensures
            registry::replacements_viewed(r) == video_replacements(*metadata, *preprocessed),
            r matches Ok(all) ==> all@.len() == preprocessed.feature_token_counts@.len(),
            r matches Ok(all) ==> registry::all_of(all@, Modality::Video),
    {
        let pad_token_id = match Self::video_pad_token_id(metadata) {
            Ok(id) => id,
            Err(e) => return Err(e),
        };
        let placeholder_token = match Self::token_for_id(metadata, pad_token_id, "video_token_id") {
            Ok(token) => token,
            Err(e) => return Err(e),
        };
        let video_grid_t = Self::video_grid_t(preprocessed);
        let video_sample_fps = Self::video_sample_fps(metadata, preprocessed);
        let counts = &preprocessed.feature_token_counts;
        let mut all: Vec<PromptReplacement> = Vec::new();
        let mut i: usize = 0;
        while i < counts.len()
            invariant
                i <= counts.len(),
                counts == &preprocessed.feature_token_counts,
                video_grid_t == preprocessed.single_grid_t(),
                video_sample_fps@ == effective_fps(*metadata, *preprocessed),
                all@.len() == i,
                registry::all_of(all@, Modality::Video),
                forall|j: int|
                    0 <= j < i ==> #[trigger] all@[j]@ == video_item(
                        *metadata,
                        *preprocessed,
                        placeholder_token@,
                        pad_token_id,
                        counts@[j],
                    ),
            decreases counts.len() - i,
        {
            let num_tokens = counts[i];
            let by_frame = match video_grid_t {
                Some(grid_t) => Self::per_frame_video_tokens(
                    metadata,
                    pad_token_id,
                    num_tokens,
                    grid_t,
                    video_sample_fps,
                ),
                None => None,
            };
            let tokens = match by_frame {
                Some(tokens) => tokens,
                None => {
                    let mut flat: Vec<TokenId> = Vec::new();
                    append_repeated(&mut flat, pad_token_id, num_tokens);
                    proof {
                        assert(flat@ =~= types::repeated(pad_token_id, num_tokens as nat));
                    }
                    flat
                },
            };
            all.push(
                PromptReplacement::sequence(
                    Modality::Video,
                    placeholder_token.as_str(),
                    tokens,
                ).with_structural_prefix(1),
            );
            i = i + 1;
        }
        proof {
            let views = registry::views(all@);
            assert(Ok::<Seq<PromptReplacementView>, RegistryErrorView>(views)
                == video_replacements(*metadata, *preprocessed)) by {
                assert(views =~= video_replacements(*metadata, *preprocessed)->Ok_0);
            }
        }
        Ok(all)
    }
}

impl ModelProcessorSpec for Qwen3VLVisionSpec {
    open spec fn family(&self) -> Seq<char> {
        "qwen3_vl"@
    }

    fn name(&self) -> (name: &'static str) {
        "qwen3_vl"
    }

    fn matches<T: Tokenizer>(&self, metadata: &ModelMetadata<T>) -> (r: bool)
        ensures
            r == is_qwen3_vl(*metadata),
    {
        let id = ascii_lowercase(metadata.model_id);
        if let Some(model_type) = metadata.config_model_type() {
            if same(model_type, "qwen3_vl") || same(model_type, "qwen3_5") || same(
                model_type,
                "qwen3_5_moe",
            ) || same(model_type, "qwen4_exp") {
                return true;
            }
        }
        has(&id, "qwen3") && has(&id, "vl") || has(&id, "qwen3.5") || has(&id, "qwen3.6")
    }

    fn placeholder_token<T: Tokenizer>(&self, metadata: &ModelMetadata<T>) -> (r: RegistryResult<
        String,
    >)
        ensures
            registry::viewed(r) == declared_token(*metadata, "image_token_id"@),
    {
        match Self::image_pad_token_id(metadata) {
            Ok(id) => Self::token_for_id(metadata, id, "image_token_id"),
            Err(e) => Err(e),
        }
    }

    fn placeholder_token_id<T: Tokenizer>(&self, metadata: &ModelMetadata<T>) -> (r: RegistryResult<
        TokenId,
    >)
        ensures
            registry::viewed(r) == declared(*metadata, "image_token_id"@),
    {
        Self::image_pad_token_id(metadata)
    }

    fn placeholder_token_for<T: Tokenizer>(
        &self,
        metadata: &ModelMetadata<T>,
        modality: Modality,
    ) -> (r: RegistryResult<String>)
        ensures
            registry::viewed(r) == (match modality {
                Modality::Image => declared_token(*metadata, "image_token_id"@),
                Modality::Video => declared_token(*metadata, "video_token_id"@),
                Modality::Audio => Err(registry::unsupported("qwen3_vl"@, modality)),
            }),
    {
        match modality {
            Modality::Image => self.placeholder_token(metadata),
            Modality::Video => match Self::video_pad_token_id(metadata) {
                Ok(id) => Self::token_for_id(metadata, id, "video_token_id"),
                Err(e) => Err(e),
            },
            Modality::Audio => Err(
                ModelRegistryError::UnsupportedModality { spec: self.name(), modality },
            ),
        }
    }

    fn placeholder_token_id_for<T: Tokenizer>(
        &self,
        metadata: &ModelMetadata<T>,
        modality: Modality,
    ) -> (r: RegistryResult<TokenId>)
        ensures
            registry::viewed(r) == (match modality {
                Modality::Image => declared(*metadata, "image_token_id"@),
                Modality::Video => declared(*metadata, "video_token_id"@),
                Modality::Audio => Err(registry::unsupported("qwen3_vl"@, modality)),
            }),
    {
        match modality {
            Modality::Image => Self::image_pad_token_id(metadata),
            Modality::Video => Self::video_pad_token_id(metadata),
            Modality::Audio => Err(
                ModelRegistryError::UnsupportedModality { spec: self.name(), modality },
            ),
        }
    }

    fn modality_limits<T: Tokenizer>(&self, metadata: &ModelMetadata<T>) -> (r: RegistryResult<
        ModalityLimits,
    >)
        ensures
            r == Ok::<ModalityLimits, ModelRegistryError>(
                ModalityLimits {
                    image: Some(10),
                    audio: None,
                    video: if metadata.number("video_token_id"@) is Some {
                        Some(1)
                    } else {
                        None
                    },
                },
            ),
    {
        let video: Option<usize> = if metadata.config_field("video_token_id").is_some() {
            Some(1)
        } else {
            None
        };
        Ok(ModalityLimits { image: Some(10), audio: None, video })
    }

    fn processor_kwargs<T: Tokenizer>(&self, metadata: &ModelMetadata<T>) -> (r: RegistryResult<
        Value,
    >)
        ensures
            r matches Ok(v) && json::json_contents(v) == json::nothing_but_an_object(),
    {
        Ok(empty_object())
    }

    fn video_fetch_config(&self, video_preprocessor_config: Option<&PreProcessorConfig>) -> (r:
        VideoFetchConfig)
        ensures
            r == fetch_config(video_preprocessor_config),
    {
        qwen3_video_fetch_config(video_preprocessor_config)
    }

    fn prompt_replacements<T: Tokenizer>(
        &self,
        metadata: &ModelMetadata<T>,
        preprocessed: &PreprocessedEncoderInputs,
    ) -> (r: RegistryResult<Vec<PromptReplacement>>)
        ensures
            registry::replacements_viewed(r) == image_replacements(*metadata, *preprocessed),
    {
        let pad_token_id = match Self::image_pad_token_id(metadata) {
            Ok(id) => id,
            Err(e) => return Err(e),
        };
        let placeholder_token = match self.placeholder_token(metadata) {
            Ok(token) => token,
            Err(e) => return Err(e),
        };
        // The chat template already wraps each image, so only the single
        // placeholder is expanded to pad tokens.
        let counts = &preprocessed.feature_token_counts;
        let mut all: Vec<PromptReplacement> = Vec::new();
        let mut i: usize = 0;
        while i < counts.len()
            invariant
                i <= counts.len(),
                counts == &preprocessed.feature_token_counts,
                all@.len() == i,
                registry::all_of(all@, Modality::Image),
                forall|j: int|
                    0 <= j < i ==> #[trigger] all@[j]@ == image_item(
                        placeholder_token@,
                        pad_token_id,
                        counts@[j],
                    ),
            decreases counts.len() - i,
        {
            all.push(
                PromptReplacement::repeated(
                    Modality::Image,
                    placeholder_token.as_str(),
                    pad_token_id,
                    counts[i],
                ),
            );
            i = i + 1;
        }
        proof {
            let views = registry::views(all@);
            assert(Ok::<Seq<PromptReplacementView>, RegistryErrorView>(views)
                == image_replacements(*metadata, *preprocessed)) by {
                assert(views =~= image_replacements(*metadata, *preprocessed)->Ok_0);
            }
        }
        Ok(all)
    }

    fn prompt_replacements_for<T: Tokenizer>(
        &self,
        metadata: &ModelMetadata<T>,
        preprocessed: &PreprocessedEncoderInputs,
        modality: Modality,
    ) -> (r: RegistryResult<Vec<PromptReplacement>>)
        ensures
            registry::replacements_viewed(r) == (match modality {
                Modality::Image => image_replacements(*metadata, *preprocessed),
                Modality::Video => video_replacements(*metadata, *preprocessed),
                Modality::Audio => Err(registry::unsupported("qwen3_vl"@, modality)),
            }),
    {
        match modality {
            Modality::Image => self.prompt_replacements(metadata, preprocessed),
            Modality::Video => Self::video_replacements_of(metadata, preprocessed),
            Modality::Audio => Err(
                ModelRegistryError::UnsupportedModality { spec: self.name(), modality },
            ),
        }
    }

    fn field_layouts(&self) -> (r: StringHashMap<FieldLayout>)
        ensures
            registry::layouts(r@) == tensor_layouts(),
    {
        let r = no_layouts();
        let r = with_layout(r, "pixel_values", FieldLayout::flat("patches_per_image"));
        let r = with_layout(r, "image_grid_thw", FieldLayout::Batched);
        let r = with_layout(r, "patches_per_image", FieldLayout::Batched);
        let r = with_layout(r, "video_grid_thw", FieldLayout::Batched);
        let r = with_layout(r, "patches_per_video", FieldLayout::Batched);
        with_layout(r, "video_second_per_grid", FieldLayout::Batched)
    }

    fn keep_on_cpu_keys(&self) -> (keys: Vec<String>) {
        grid_keys()
    }
}

} // verus!
