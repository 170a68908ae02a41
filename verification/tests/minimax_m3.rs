use llm_multimodal::encoder_inputs::{ModelSpecificValue, PreprocessedEncoderInputs};
use llm_multimodal::float::binary32::Binary32;
use llm_multimodal::float::binary64::Binary64;
use llm_multimodal::registry::minimax_m3::{
    MiniMaxM3VisionSpec, MAX_IMAGES_PER_REQUEST, MAX_VIDEOS_PER_REQUEST,
};
use llm_multimodal::registry::{ModelMetadata, ModelProcessorSpec, ModelRegistryError, Tokenizer};
use llm_multimodal::types::{FieldLayout, Modality, TokenId};
use llm_multimodal::video_sampling::{VideoSamplingStrategy, VideoSourceMeta};
use llm_multimodal::vision::{ExtraField, PreProcessorConfig};
use serde_json::Value;

const IMAGE_TOKEN: &str = "]<]image[>[";
const VIDEO_TOKEN: &str = "]<]video[>[";
const IMAGE_START_TOKEN: &str = "]<]start of image[>[";
const IMAGE_END_TOKEN: &str = "]<]end of image[>[";
const VIDEO_START_TOKEN: &str = "]<]start of video[>[";
const VIDEO_END_TOKEN: &str = "]<]end of video[>[";

/// Vocabulary ids for M3's media markers, as the checkpoint declares them.
const IMAGE_ID: TokenId = 200_025;
const VIDEO_ID: TokenId = 200_026;
const IMAGE_START_ID: TokenId = 200_029;
const IMAGE_END_ID: TokenId = 200_030;
const VIDEO_START_ID: TokenId = 200_031;
const VIDEO_END_ID: TokenId = 200_032;

fn double(v: f64) -> Binary64 {
    Binary64::from_bits(v.to_bits())
}

fn single(v: f32) -> Binary32 {
    Binary32::from_bits(v.to_bits())
}

struct M3Tokenizer;

impl Tokenizer for M3Tokenizer {
    fn token_to_id(&self, token: &str) -> Option<u32> {
        match token {
            IMAGE_TOKEN => Some(IMAGE_ID as u32),
            VIDEO_TOKEN => Some(VIDEO_ID as u32),
            IMAGE_START_TOKEN => Some(IMAGE_START_ID as u32),
            IMAGE_END_TOKEN => Some(IMAGE_END_ID as u32),
            VIDEO_START_TOKEN => Some(VIDEO_START_ID as u32),
            VIDEO_END_TOKEN => Some(VIDEO_END_ID as u32),
            _ => None,
        }
    }

    fn id_to_token(&self, id: u32) -> Option<String> {
        match id {
            id if id == IMAGE_ID as u32 => Some(IMAGE_TOKEN.to_string()),
            id if id == VIDEO_ID as u32 => Some(VIDEO_TOKEN.to_string()),
            _ => None,
        }
    }

    fn encode_text(&self, text: &str) -> Option<Vec<u32>> {
        // Known markers map to their declared ids; anything else (the timestamp
        // text) byte-encodes at a high base so tests can reconstruct it.
        self.token_to_id(text)
            .map(|id| vec![id])
            .or_else(|| Some(text.bytes().map(|b| 300_000 + u32::from(b)).collect()))
    }
}

/// Knows some tokens and encodes no text.
struct MuteTokenizer {
    vocabulary: Vec<&'static str>,
}

impl Tokenizer for MuteTokenizer {
    fn token_to_id(&self, token: &str) -> Option<u32> {
        self.vocabulary.iter().position(|t| *t == token).map(|i| i as u32)
    }

    fn id_to_token(&self, id: u32) -> Option<String> {
        self.vocabulary.get(id as usize).map(|t| t.to_string())
    }

    fn encode_text(&self, _text: &str) -> Option<Vec<u32>> {
        None
    }
}

/// Decode byte-encoded (base 300_000) text fragments out of a token run.
fn encoded_text(tokens: &[TokenId]) -> String {
    tokens
        .iter()
        .filter(|&&t| (300_000..300_256).contains(&(t as u32)))
        .map(|&t| char::from((t as u32 - 300_000) as u8))
        .collect()
}

fn json(text: &str) -> Value {
    serde_json::from_str(text).unwrap()
}

fn metadata() -> ModelMetadata<'static, M3Tokenizer> {
    static CONFIG: std::sync::OnceLock<Value> = std::sync::OnceLock::new();
    static TOKENIZER: M3Tokenizer = M3Tokenizer;
    let config = CONFIG.get_or_init(|| {
        json(
            r#"{
                "model_type": "minimax_m3_vl",
                "image_token_index": 200025,
                "video_token_index": 200026
            }"#,
        )
    });
    ModelMetadata {
        model_id: "MiniMaxAI/MiniMax-M3",
        config,
        tokenizer: &TOKENIZER,
    }
}

fn preprocessed(counts: Vec<usize>) -> PreprocessedEncoderInputs {
    PreprocessedEncoderInputs::new(counts)
}

#[test]
fn matches_by_model_type_and_id() {
    let spec = MiniMaxM3VisionSpec;
    assert!(spec.matches(&metadata()));
}

#[test]
fn placeholder_tokens_use_the_m3_namespace() {
    let spec = MiniMaxM3VisionSpec;
    let meta = metadata();

    assert_eq!(spec.placeholder_token(&meta).unwrap(), "]<]image[>[");
    assert_eq!(
        spec.placeholder_token_for(&meta, Modality::Video).unwrap(),
        "]<]video[>["
    );
    assert_eq!(spec.placeholder_token_id(&meta).unwrap(), IMAGE_ID);
    assert_eq!(
        spec.placeholder_token_id_for(&meta, Modality::Video)
            .unwrap(),
        VIDEO_ID
    );
}

#[test]
fn image_replacement_is_wrapped_in_start_and_end_markers() {
    let spec = MiniMaxM3VisionSpec;
    let meta = metadata();
    let replacements = spec
        .prompt_replacements(&meta, &preprocessed(vec![4]))
        .unwrap();

    assert_eq!(replacements.len(), 1);
    let replacement = &replacements[0];

    // M3's chat template emits a bare ]<]image[>[, so the spec owns the
    // surrounding markers.
    assert_eq!(
        replacement.tokens,
        vec![
            IMAGE_START_ID,
            IMAGE_ID,
            IMAGE_ID,
            IMAGE_ID,
            IMAGE_ID,
            IMAGE_END_ID
        ]
    );
    assert_eq!(replacement.placeholder_token, "]<]image[>[");
    assert_eq!(replacement.modality, Modality::Image);
}

#[test]
fn feature_span_skips_the_structural_markers() {
    let spec = MiniMaxM3VisionSpec;
    let replacements = spec
        .prompt_replacements(&metadata(), &preprocessed(vec![4]))
        .unwrap();
    let ranges = replacements[0].feature_ranges.as_ref().unwrap();

    // The encoder features are the padded middle only.
    assert_eq!(ranges.len(), 1);
    assert_eq!(ranges[0].offset, 1);
    assert_eq!(ranges[0].length, 4);
    // Both markers live inside `tokens`, so nothing is folded in from before the
    // placeholder.
    assert_eq!(replacements[0].structural_prefix, 0);
}

#[test]
fn one_replacement_per_media_item() {
    let spec = MiniMaxM3VisionSpec;
    let replacements = spec
        .prompt_replacements(&metadata(), &preprocessed(vec![2, 3]))
        .unwrap();

    assert_eq!(replacements.len(), 2);
    assert_eq!(replacements[0].tokens.len(), 2 + 2);
    assert_eq!(replacements[1].tokens.len(), 3 + 2);
}

#[test]
fn video_replacement_uses_the_video_pad_token() {
    let spec = MiniMaxM3VisionSpec;
    let replacements = spec
        .prompt_replacements_for(&metadata(), &preprocessed(vec![3]), Modality::Video)
        .unwrap();

    // Video uses M3's own video markers, not the image pair.
    assert_eq!(
        replacements[0].tokens,
        vec![VIDEO_START_ID, VIDEO_ID, VIDEO_ID, VIDEO_ID, VIDEO_END_ID]
    );
    assert_eq!(replacements[0].modality, Modality::Video);
    assert_eq!(replacements[0].placeholder_token, "]<]video[>[");
}

/// Preprocessed video carrying a `video_grid_thw` of `[grid_t, h, w]`.
fn preprocessed_video(counts: Vec<usize>, grid_t: i64) -> PreprocessedEncoderInputs {
    preprocessed(counts).with_extra(
        "video_grid_thw",
        ModelSpecificValue::IntTensor {
            data: vec![grid_t, 4, 4],
            shape: vec![1, 3],
        },
    )
}

#[test]
fn multi_frame_video_emits_one_block_per_frame() {
    let spec = MiniMaxM3VisionSpec;
    // 3 temporal frames, 12 tokens total => 4 pad tokens per frame.
    let replacements = spec
        .prompt_replacements_for(
            &metadata(),
            &preprocessed_video(vec![12], 3),
            Modality::Video,
        )
        .unwrap();

    let tokens = &replacements[0].tokens;
    // Each frame is [start] + 4 pads + [end].
    let frame = |_| {
        let mut v = vec![VIDEO_START_ID];
        v.extend(std::iter::repeat_n(VIDEO_ID, 4));
        v.push(VIDEO_END_ID);
        v
    };
    let expected: Vec<TokenId> = (0..3).flat_map(frame).collect();
    assert_eq!(tokens, &expected);
    assert_eq!(tokens.len(), 3 * (4 + 2));
}

#[test]
fn multi_frame_feature_ranges_skip_each_frames_markers() {
    let spec = MiniMaxM3VisionSpec;
    let replacements = spec
        .prompt_replacements_for(
            &metadata(),
            &preprocessed_video(vec![12], 3),
            Modality::Video,
        )
        .unwrap();

    let ranges = replacements[0].feature_ranges.as_ref().unwrap();
    assert_eq!(ranges.len(), 3);
    // Frame f starts at f*(4+2), its pads begin one token later.
    assert_eq!((ranges[0].offset, ranges[0].length), (1, 4));
    assert_eq!((ranges[1].offset, ranges[1].length), (7, 4));
    assert_eq!((ranges[2].offset, ranges[2].length), (13, 4));
}

#[test]
fn single_frame_video_stays_one_block() {
    let spec = MiniMaxM3VisionSpec;
    let replacements = spec
        .prompt_replacements_for(
            &metadata(),
            &preprocessed_video(vec![4], 1),
            Modality::Video,
        )
        .unwrap();

    assert_eq!(
        replacements[0].tokens,
        vec![
            VIDEO_START_ID,
            VIDEO_ID,
            VIDEO_ID,
            VIDEO_ID,
            VIDEO_ID,
            VIDEO_END_ID
        ]
    );
}

#[test]
fn ragged_token_count_falls_back_to_one_block() {
    let spec = MiniMaxM3VisionSpec;
    // 10 tokens over 3 frames does not divide evenly.
    let replacements = spec
        .prompt_replacements_for(
            &metadata(),
            &preprocessed_video(vec![10], 3),
            Modality::Video,
        )
        .unwrap();

    assert_eq!(replacements[0].tokens.len(), 10 + 2);
}

#[test]
fn declares_image_and_video_limits() {
    let spec = MiniMaxM3VisionSpec;
    let limits = spec.modality_limits(&metadata()).unwrap();

    assert_eq!(limits.get(&Modality::Image), Some(MAX_IMAGES_PER_REQUEST));
    assert_eq!(MAX_IMAGES_PER_REQUEST, 200);
    assert_eq!(limits.get(&Modality::Video), Some(MAX_VIDEOS_PER_REQUEST));
    assert_eq!(MAX_VIDEOS_PER_REQUEST, 20);
    assert!(!limits.contains_key(&Modality::Audio));
}

#[test]
fn audio_is_rejected() {
    let spec = MiniMaxM3VisionSpec;
    let err = spec
        .prompt_replacements_for(&metadata(), &preprocessed(vec![1]), Modality::Audio)
        .unwrap_err();

    assert!(matches!(
        err,
        ModelRegistryError::UnsupportedModality { .. }
    ));
}

#[test]
fn grid_tensors_stay_on_cpu() {
    let spec = MiniMaxM3VisionSpec;
    let keys = spec.keep_on_cpu_keys();

    assert!(keys.contains(&"image_grid_thw".to_string()));
    assert!(keys.contains(&"video_grid_thw".to_string()));
}

fn m3_source(total_frames: usize, fps: f64) -> VideoSourceMeta {
    VideoSourceMeta {
        total_frames,
        original_fps: double(fps),
        duration_seconds: (fps.is_finite() && fps > 0.0)
            .then_some(double(total_frames as f64 / fps)),
    }
}

#[test]
fn m3_sampling_ceil_interval_walk() {
    // One frame per second of source time at 30 fps, eps-guarded.
    let plan = VideoSamplingStrategy::MiniMaxM3.plan(&m3_source(98, 30.0), 1, 768, single(1.0));
    assert_eq!(plan.indices, vec![0, 30, 60, 90]);

    let plan = VideoSamplingStrategy::MiniMaxM3.plan(&m3_source(98, 30.0), 1, 768, single(2.0));
    assert_eq!(plan.indices, vec![0, 15, 30, 45, 60, 75, 90]);

    // Non-integer source fps: ceil keeps the walk on distinct frames.
    let plan = VideoSamplingStrategy::MiniMaxM3.plan(&m3_source(97, 33.0), 1, 768, single(1.0));
    assert_eq!(plan.indices, vec![0, 33, 66]);
}

#[test]
fn m3_sampling_degenerates_to_first_frame() {
    // Tiny clips and unknown/invalid rates all yield [0] (no uniform fallback).
    for source in [
        m3_source(2, 2.0),
        m3_source(1, 30.0),
        m3_source(100, 0.0),
        m3_source(100, f64::NAN),
    ] {
        let plan = VideoSamplingStrategy::MiniMaxM3.plan(&source, 1, 768, single(1.0));
        assert_eq!(plan.indices, vec![0]);
    }
    let plan = VideoSamplingStrategy::MiniMaxM3.plan(&m3_source(0, 30.0), 1, 768, single(1.0));
    assert!(plan.indices.is_empty());
}

fn preprocessor_config(text: &str) -> PreProcessorConfig {
    let mut config = PreProcessorConfig::new();
    let value = json(text);
    for (key, value) in value.as_object().unwrap() {
        let field = ExtraField {
            as_count: serde_json::from_value::<usize>(value.clone()).ok(),
            as_single: serde_json::from_value::<f32>(value.clone()).ok().map(single),
            as_double: serde_json::from_value::<f64>(value.clone()).ok().map(double),
        };
        config.extra.insert(key.clone(), field);
    }
    config
}

#[test]
fn m3_video_fetch_config_defaults_to_1fps() {
    let cfg = MiniMaxM3VisionSpec.video_fetch_config(None);
    assert_eq!(cfg.min_frames, 1);
    assert_eq!(cfg.max_frames, 768);
    assert_eq!(cfg.sample_fps, single(1.0));
    assert_eq!(cfg.strategy, VideoSamplingStrategy::MiniMaxM3);

    let pp_config = preprocessor_config(r#"{"fps": 2.0, "max_frames": 256}"#);
    let cfg = MiniMaxM3VisionSpec.video_fetch_config(Some(&pp_config));
    assert_eq!(cfg.sample_fps, single(2.0));
    assert_eq!(cfg.max_frames, 256);
}

fn timed(counts: Vec<usize>, grid_t: i64, frames: Vec<i64>, fps: f32) -> PreprocessedEncoderInputs {
    let frame_count = frames.len();
    preprocessed_video(counts, grid_t)
        .with_extra(
            "video_frames_indices",
            ModelSpecificValue::IntTensor {
                data: frames,
                shape: vec![frame_count],
            },
        )
        .with_extra(
            "video_source_fps",
            ModelSpecificValue::Tensor {
                data: vec![single(fps)],
                shape: vec![1],
            },
        )
}

#[test]
fn video_frames_carry_timestamp_markers_when_metadata_present() {
    let spec = MiniMaxM3VisionSpec;
    // grid_t = 2, 2 pad tokens per frame; sampled source frames 0 and 30 at 30 fps
    // -> timestamps 0.0s and 1.0s (temporal_patch_size = 2 clamps the second
    // lookup to the last index).
    let input = timed(vec![4], 2, vec![0, 30], 30.0);
    let replacements = spec
        .prompt_replacements_for(&metadata(), &input, Modality::Video)
        .unwrap();

    let tokens = &replacements[0].tokens;
    // Each frame: "]<]X.X seconds[>[" (17 byte-encoded tokens) + start + 2 pads +
    // end.
    let ts_len = 17;
    let frame_len = ts_len + 1 + 2 + 1;
    assert_eq!(tokens.len(), 2 * frame_len);
    assert_eq!(tokens[ts_len], VIDEO_START_ID);
    assert_eq!(tokens[frame_len + ts_len], VIDEO_START_ID);
    assert_eq!(encoded_text(&tokens[..ts_len]), "]<]0.0 seconds[>[");
    assert_eq!(
        encoded_text(&tokens[frame_len..frame_len + ts_len]),
        "]<]1.0 seconds[>["
    );

    let ranges = replacements[0].feature_ranges.as_ref().unwrap();
    assert_eq!(
        ranges
            .iter()
            .map(|range| (range.offset, range.length))
            .collect::<Vec<_>>(),
        vec![(ts_len + 1, 2), (frame_len + ts_len + 1, 2)]
    );
}

#[test]
fn video_frames_omit_timestamps_without_metadata() {
    // Without metadata the frame blocks alone are emitted.
    let spec = MiniMaxM3VisionSpec;
    let replacements = spec
        .prompt_replacements_for(
            &metadata(),
            &preprocessed_video(vec![4], 2),
            Modality::Video,
        )
        .unwrap();

    assert_eq!(
        replacements[0].tokens,
        vec![
            VIDEO_START_ID,
            VIDEO_ID,
            VIDEO_ID,
            VIDEO_END_ID,
            VIDEO_START_ID,
            VIDEO_ID,
            VIDEO_ID,
            VIDEO_END_ID,
        ]
    );
    let ranges = replacements[0].feature_ranges.as_ref().unwrap();
    assert_eq!(
        ranges
            .iter()
            .map(|range| (range.offset, range.length))
            .collect::<Vec<_>>(),
        vec![(1, 2), (5, 2)]
    );
}

#[test]
fn timestamps_follow_the_temporal_patch_size() {
    let config = json(
        r#"{
            "video_token_index": 200026,
            "img_token_compression_config": {"temporal_patch_size": 3}
        }"#,
    );
    let metadata = ModelMetadata {
        model_id: "x",
        tokenizer: &M3Tokenizer,
        config: &config,
    };
    let frames: Vec<i64> = vec![0, 7, 14, 21, 28, 35, 42, 49];
    let fps = 29.97_f32;
    let input = timed(vec![6], 6, frames.clone(), fps);
    let replacements = MiniMaxM3VisionSpec
        .prompt_replacements_for(&metadata, &input, Modality::Video)
        .unwrap();
    let expected: String = (0..6)
        .map(|i: usize| {
            let at = (i * 3).min(frames.len() - 1);
            format!("]<]{:.1} seconds[>[", frames[at] as f64 / f64::from(fps))
        })
        .collect();
    assert_eq!(encoded_text(&replacements[0].tokens), expected);
}

#[test]
fn insane_frame_rates_leave_timestamps_out() {
    for fps in [0.0, -1.0, f32::NAN, f32::INFINITY] {
        let input = timed(vec![4], 2, vec![0, 30], fps);
        assert!(MiniMaxM3VisionSpec::video_frame_timestamps(&input).is_none());
        let replacements = MiniMaxM3VisionSpec
            .prompt_replacements_for(&metadata(), &input, Modality::Video)
            .unwrap();
        assert_eq!(replacements[0].tokens.len(), 8);
    }
    let none_sampled = timed(vec![4], 2, vec![], 30.0);
    assert!(MiniMaxM3VisionSpec::video_frame_timestamps(&none_sampled).is_none());
    let sane = timed(vec![4], 2, vec![5], 30.0);
    let (frames, fps) = MiniMaxM3VisionSpec::video_frame_timestamps(&sane).unwrap();
    assert_eq!(frames, vec![5]);
    assert_eq!(fps, double(30.0));
}

#[test]
fn ids_fall_back_to_the_vocabulary() {
    let empty = json("{}");
    let metadata = ModelMetadata {
        model_id: "x",
        tokenizer: &M3Tokenizer,
        config: &empty,
    };
    assert_eq!(MiniMaxM3VisionSpec::image_token_id(&metadata).unwrap(), IMAGE_ID);
    assert_eq!(MiniMaxM3VisionSpec::video_token_id(&metadata).unwrap(), VIDEO_ID);
    assert!(MiniMaxM3VisionSpec::supports_video(&metadata));
    // The checkpoint's own declaration comes first.
    let declared = json(r#"{"image_token_index": 7, "video_token_index": 8}"#);
    let metadata = ModelMetadata {
        model_id: "x",
        tokenizer: &M3Tokenizer,
        config: &declared,
    };
    assert_eq!(MiniMaxM3VisionSpec::image_token_id(&metadata).unwrap(), 7);
    assert_eq!(MiniMaxM3VisionSpec::video_token_id(&metadata).unwrap(), 8);
}

#[test]
fn a_checkpoint_without_video_advertises_none() {
    let tokenizer = MuteTokenizer { vocabulary: vec![IMAGE_TOKEN] };
    let empty = json("{}");
    let metadata = ModelMetadata {
        model_id: "x",
        tokenizer: &tokenizer,
        config: &empty,
    };
    assert!(!MiniMaxM3VisionSpec::supports_video(&metadata));
    let limits = MiniMaxM3VisionSpec.modality_limits(&metadata).unwrap();
    assert_eq!(limits.get(&Modality::Image), Some(200));
    assert_eq!(limits.get(&Modality::Video), None);
    assert!(!limits.is_empty());
    assert_eq!(
        MiniMaxM3VisionSpec
            .prompt_replacements_for(&metadata, &preprocessed(vec![1]), Modality::Video)
            .unwrap_err(),
        ModelRegistryError::TokenNotFound {
            token: VIDEO_TOKEN.to_string()
        }
    );
    assert_eq!(
        MiniMaxM3VisionSpec
            .prompt_replacements(&metadata, &preprocessed(vec![1]))
            .unwrap_err(),
        ModelRegistryError::TokenNotFound {
            token: IMAGE_START_TOKEN.to_string()
        }
    );
    // No item, no marker that is missed.
    assert!(MiniMaxM3VisionSpec
        .prompt_replacements(&metadata, &preprocessed(vec![]))
        .unwrap()
        .is_empty());
}

#[test]
fn text_that_cannot_be_encoded_is_an_error() {
    let tokenizer = MuteTokenizer {
        vocabulary: vec![VIDEO_TOKEN, VIDEO_START_TOKEN, VIDEO_END_TOKEN],
    };
    let empty = json("{}");
    let metadata = ModelMetadata {
        model_id: "x",
        tokenizer: &tokenizer,
        config: &empty,
    };
    let expected = ModelRegistryError::TextEncodingFailed {
        spec: "minimax_m3",
        text: "]<]0.5 seconds[>[".to_string(),
    };
    assert_eq!(
        MiniMaxM3VisionSpec
            .prompt_replacements_for(
                &metadata,
                &timed(vec![4], 2, vec![15, 45], 30.0),
                Modality::Video
            )
            .unwrap_err(),
        expected
    );
    assert_eq!(
        MiniMaxM3VisionSpec::encode(&metadata, "]<]0.5 seconds[>[").unwrap_err(),
        expected
    );
    // Without timestamps nothing is encoded.
    assert!(MiniMaxM3VisionSpec
        .prompt_replacements_for(&metadata, &preprocessed_video(vec![4], 2), Modality::Video)
        .is_ok());
}

#[test]
fn m3_matches_by_name() {
    let empty = json(r#"{"model_type": 3}"#);
    let matches = |model_id: &str| {
        MiniMaxM3VisionSpec.matches(&ModelMetadata {
            model_id,
            tokenizer: &M3Tokenizer,
            config: &empty,
        })
    };
    assert!(matches("MiniMaxAI/MINIMAX-M3-awq"));
    assert!(!matches("MiniMaxAI/MiniMax-M2"));
    assert!(!matches("m3"));
}

#[test]
fn m3_static_answers() {
    let spec = MiniMaxM3VisionSpec;
    let meta = metadata();
    assert_eq!(spec.name(), "minimax_m3");
    assert_eq!(spec.processor_kwargs(&meta).unwrap(), json("{}"));
    let layouts = spec.field_layouts();
    assert_eq!(layouts.len(), 6);
    assert_eq!(
        layouts.get("pixel_values"),
        Some(&FieldLayout::flat("patches_per_image"))
    );
    assert_eq!(
        layouts.get("pixel_values_videos"),
        Some(&FieldLayout::flat("patches_per_video"))
    );
    for key in [
        "image_grid_thw",
        "patches_per_image",
        "video_grid_thw",
        "patches_per_video",
    ] {
        assert_eq!(layouts.get(key), Some(&FieldLayout::Batched));
    }
    let unsupported = ModelRegistryError::UnsupportedModality {
        spec: "minimax_m3",
        modality: Modality::Audio,
    };
    assert_eq!(
        spec.placeholder_token_for(&meta, Modality::Audio).unwrap_err(),
        unsupported
    );
    assert_eq!(
        spec.placeholder_token_id_for(&meta, Modality::Audio).unwrap_err(),
        unsupported
    );
    assert_eq!(
        MiniMaxM3VisionSpec::wrapper_tokens(Modality::Audio).unwrap_err(),
        unsupported
    );
    assert_eq!(
        MiniMaxM3VisionSpec::wrapper_tokens(Modality::Video).unwrap(),
        (VIDEO_START_TOKEN, VIDEO_END_TOKEN)
    );
}

#[test]
fn grids_of_other_shapes_are_no_single_grid() {
    let with = |value: ModelSpecificValue| {
        MiniMaxM3VisionSpec::video_grid_t(&preprocessed(vec![4]).with_extra("video_grid_thw", value))
    };
    assert_eq!(with(ModelSpecificValue::int_2d(vec![5, 1, 1], 1, 3)), Some(5));
    assert_eq!(with(ModelSpecificValue::int_2d(vec![-5, 1, 1], 1, 3)), None);
    assert_eq!(with(ModelSpecificValue::int_2d(vec![], 1, 3)), None);
    assert_eq!(with(ModelSpecificValue::int_2d(vec![5, 1, 1], 3, 1)), None);
    assert_eq!(
        with(ModelSpecificValue::IntTensor {
            data: vec![5],
            shape: vec![]
        }),
        None
    );
}
