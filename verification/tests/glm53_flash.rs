use llm_multimodal::encoder_inputs::{ModelSpecificValue, PreprocessedEncoderInputs};
use llm_multimodal::float::binary32::Binary32;
use llm_multimodal::float::binary64::Binary64;
use llm_multimodal::registry::glm53_flash::{linspace_trunc, Glm53FlashSpec, MediaPartOrder};
use llm_multimodal::registry::minimax_m3::MiniMaxM3VisionSpec;
use llm_multimodal::registry::qwen3_vl::Qwen3VLVisionSpec;
use llm_multimodal::registry::{ModelMetadata, ModelProcessorSpec, ModelRegistryError, Tokenizer};
use llm_multimodal::types::{FieldLayout, Modality, TokenId};
use llm_multimodal::video_sampling::{VideoSamplingStrategy, VideoSourceMeta};
use llm_multimodal::vision::{ExtraField, PreProcessorConfig};
use serde_json::Value;

const IMAGE: &str = "<|image|>";
const BEGIN: &str = "<|begin_of_image|>";
const END: &str = "<|end_of_image|>";
const IMAGE_ID: u32 = 154854;
const BEGIN_ID: u32 = 154830;
const END_ID: u32 = 154831;

fn double(v: f64) -> Binary64 {
    Binary64::from_bits(v.to_bits())
}

fn single(v: f32) -> Binary32 {
    Binary32::from_bits(v.to_bits())
}

/// A fixed vocabulary; text is encoded byte by byte where a base is set.
struct TestTokenizer {
    vocabulary: Vec<(String, u32)>,
    byte_base: Option<u32>,
}

impl TestTokenizer {
    fn new(vocabulary: &[(&str, u32)]) -> Self {
        TestTokenizer {
            vocabulary: vocabulary.iter().map(|(t, id)| (t.to_string(), *id)).collect(),
            byte_base: None,
        }
    }

    fn with_byte_encoder(mut self, base: u32) -> Self {
        self.byte_base = Some(base);
        self
    }
}

impl Tokenizer for TestTokenizer {
    fn token_to_id(&self, token: &str) -> Option<u32> {
        self.vocabulary.iter().find(|(t, _)| t == token).map(|(_, id)| *id)
    }

    fn id_to_token(&self, id: u32) -> Option<String> {
        self.vocabulary.iter().find(|(_, i)| *i == id).map(|(t, _)| t.clone())
    }

    fn encode_text(&self, text: &str) -> Option<Vec<u32>> {
        self.byte_base.map(|base| text.bytes().map(|b| base + u32::from(b)).collect())
    }
}

fn tokenizer() -> TestTokenizer {
    TestTokenizer::new(&[(IMAGE, IMAGE_ID), (BEGIN, BEGIN_ID), (END, END_ID)])
        .with_byte_encoder(1000)
}

fn json(text: &str) -> Value {
    serde_json::from_str(text).unwrap()
}

fn capable() -> Value {
    json(r#"{"model_type":"glm53_flash", "image_token_id":154854}"#)
}

fn preprocessor_config(text: &str) -> PreProcessorConfig {
    let mut config = PreProcessorConfig::new();
    let value = json(text);
    for (key, value) in value.as_object().unwrap() {
        let field = ExtraField {
            as_count: serde_json::from_value::<usize>(value.clone()).ok(),
            as_single: serde_json::from_value::<f32>(value.clone()).ok().map(single),
            as_double: serde_json::from_value::<f64>(value.clone()).ok().map(double),
        };
        config.extra.insert(key.clone(), field);
    }
    config
}

fn seconds_tensor(seconds: f32) -> ModelSpecificValue {
    ModelSpecificValue::Tensor {
        data: vec![single(seconds)],
        shape: vec![1],
    }
}

#[test]
fn matches_names_and_builds_video_timestamps() {
    let tokenizer = tokenizer();
    let config = capable();
    let metadata = ModelMetadata {
        model_id: "zai-org/GLM-5.3-Flash",
        tokenizer: &tokenizer,
        config: &config,
    };
    let mut input = PreprocessedEncoderInputs::new(vec![4]);
    input.model_specific.insert(
        "video_grid_thw".into(),
        ModelSpecificValue::int_2d(vec![2, 2, 4], 1, 3),
    );
    input
        .model_specific
        .insert("video_second_per_grid".into(), seconds_tensor(1.0));
    assert!(Glm53FlashSpec.matches(&metadata));
    assert!(!MiniMaxM3VisionSpec.matches(&metadata));
    assert!(!Qwen3VLVisionSpec.matches(&metadata));
    let replacement = Glm53FlashSpec
        .prompt_replacements_for(&metadata, &input, Modality::Video)
        .unwrap()
        .pop()
        .unwrap();

    let ranges = replacement.feature_ranges.unwrap();
    assert_eq!(
        ranges
            .iter()
            .map(|range| (range.offset, range.length))
            .collect::<Vec<_>>(),
        vec![(1, 2), (16, 2)]
    );
    assert_eq!(replacement.tokens[0], BEGIN_ID as TokenId);
    assert_eq!(replacement.tokens[1], IMAGE_ID as TokenId);
    assert_eq!(replacement.tokens[3], END_ID as TokenId);
    let timestamp = Glm53FlashSpec::encode(&metadata, "0.0 seconds").unwrap();
    assert_eq!(&replacement.tokens[4..15], timestamp.as_slice());

    let legacy = json(r#"{"model_type":"glm5_next"}"#);
    assert!(Glm53FlashSpec.matches(&ModelMetadata {
        model_id: "legacy",
        tokenizer: &tokenizer,
        config: &legacy,
    }));
}

#[test]
fn modality_adverts_follow_checkpoint_capability() {
    // Full capability: image placeholder id + frame-marker tokens.
    let full = tokenizer();
    let config = capable();
    let limits = Glm53FlashSpec
        .modality_limits(&ModelMetadata {
            model_id: "capable",
            tokenizer: &full,
            config: &config,
        })
        .unwrap();
    assert_eq!(limits.get(&Modality::Image), Some(10));
    assert_eq!(limits.get(&Modality::Video), Some(1));

    // No frame markers in the vocab: image-only, video rejected up front.
    let no_markers = TestTokenizer::new(&[(IMAGE, IMAGE_ID)]).with_byte_encoder(1000);
    let limits = Glm53FlashSpec
        .modality_limits(&ModelMetadata {
            model_id: "image-only",
            tokenizer: &no_markers,
            config: &config,
        })
        .unwrap();
    assert_eq!(limits.get(&Modality::Image), Some(10));
    assert!(!limits.contains_key(&Modality::Video));

    // No image token id in the config: nothing advertised.
    let no_id = json(r#"{"model_type":"glm53_flash"}"#);
    let limits = Glm53FlashSpec
        .modality_limits(&ModelMetadata {
            model_id: "text-only",
            tokenizer: &full,
            config: &no_id,
        })
        .unwrap();
    assert!(limits.is_empty());
}

#[test]
fn video_error_branches_fail_loudly() {
    let tokenizer = tokenizer();
    let config = capable();
    let metadata = ModelMetadata {
        model_id: "zai-org/GLM-5.3-Flash",
        tokenizer: &tokenizer,
        config: &config,
    };
    let spec = Glm53FlashSpec;

    // Missing video_second_per_grid: the paired processor always emits it, so
    // absence is a broken pipeline, not a 1.0 default.
    let mut input = PreprocessedEncoderInputs::new(vec![4]);
    input.model_specific.insert(
        "video_grid_thw".into(),
        ModelSpecificValue::int_2d(vec![2, 2, 4], 1, 3),
    );
    let err = spec
        .prompt_replacements_for(&metadata, &input, Modality::Video)
        .unwrap_err();
    assert!(matches!(
        err,
        ModelRegistryError::InvalidPreprocessedField { ref field }
            if field == "video_second_per_grid"
    ));

    // Wrong grid shape (row width != 3).
    let mut input = PreprocessedEncoderInputs::new(vec![4]);
    input.model_specific.insert(
        "video_grid_thw".into(),
        ModelSpecificValue::int_2d(vec![2, 2], 1, 2),
    );
    assert!(matches!(
        spec.prompt_replacements_for(&metadata, &input, Modality::Video),
        Err(ModelRegistryError::InvalidPreprocessedField { .. })
    ));

    // Token count not divisible by grid_t.
    let mut input = PreprocessedEncoderInputs::new(vec![5]);
    input.model_specific.insert(
        "video_grid_thw".into(),
        ModelSpecificValue::int_2d(vec![2, 2, 4], 1, 3),
    );
    input
        .model_specific
        .insert("video_second_per_grid".into(), seconds_tensor(1.0));
    assert!(matches!(
        spec.prompt_replacements_for(&metadata, &input, Modality::Video),
        Err(ModelRegistryError::InvalidPreprocessedField { .. })
    ));
}

fn glm_source(total_frames: usize, fps: f64, duration: Option<f64>) -> VideoSourceMeta {
    VideoSourceMeta {
        total_frames,
        original_fps: double(fps),
        duration_seconds: duration.map(double),
    }
}

fn glm_plan(source: &VideoSourceMeta, max_frames: usize, fps: f32) -> Vec<usize> {
    VideoSamplingStrategy::Glm5Next {
        max_duration: double(0.0),
    }
    .plan(source, 1, max_frames, single(fps))
    .indices
}

#[test]
fn glm_threshold_walk_at_2fps() {
    // duration = 98/30 = 3.267s; extract_t = int(3.267 * 2) = 6; the walk keeps
    // the first frame at each 0.5s boundary and stops at 3s.
    let indices = glm_plan(&glm_source(98, 30.0, Some(98.0 / 30.0)), 2048, 2.0);
    assert_eq!(indices, vec![0, 15, 30, 45, 60, 75]);
}

#[test]
fn glm_duration_falls_back_to_frame_count_estimate() {
    // No duration: round(97/30) + 1 = 4s; extract_t = 8; the walk finds 7 frames
    // (stops at 90), so linspace pads from the walked span.
    let indices = glm_plan(&glm_source(98, 30.0, None), 2048, 2.0);
    assert_eq!(indices, vec![0, 12, 25, 38, 51, 64, 77, 90]);
}

#[test]
fn glm_odd_count_repeats_last_frame() {
    // extract_t = int(0.5 * 2) = 1; the single walked frame is duplicated to make
    // the count even for temporal patching.
    let indices = glm_plan(&glm_source(2, 2.0, Some(0.5)), 2048, 2.0);
    assert_eq!(indices, vec![0, 0]);
}

#[test]
fn glm_underfull_walk_pads_with_linspace_and_repeats_last() {
    // duration = 2.9s: extract_t = 5 but the walk stops after 4 frames, so a
    // linspace over the walked span pads to 5, and the odd count repeats the last
    // frame.
    let indices = glm_plan(&glm_source(29, 10.0, Some(2.9)), 2048, 2.0);
    assert_eq!(indices, vec![0, 3, 7, 11, 15, 15]);
}

#[test]
fn glm_overfull_walk_trims_with_linspace() {
    // duration = 2.4s: extract_t = 4 but the walk finds 5 frames, so a full-span
    // linspace trim applies.
    let indices = glm_plan(&glm_source(24, 10.0, Some(2.4)), 2048, 2.0);
    assert_eq!(indices, vec![0, 5, 10, 15]);
}

#[test]
fn glm_max_frames_caps_extract_count() {
    // int(166.67 * 2) = 333 -> capped to 64; the overfull trim then spans the
    // whole video.
    let indices = glm_plan(&glm_source(5000, 30.0, Some(5000.0 / 30.0)), 64, 2.0);
    assert_eq!(indices.len(), 64);
    assert_eq!(indices[0], 0);
    assert_eq!(*indices.last().unwrap(), 4999);
}

#[test]
fn glm_unknown_fps_falls_back_to_uniform() {
    for bad_fps in [0.0, -1.0, f64::NAN] {
        let glm = VideoSamplingStrategy::Glm5Next {
            max_duration: double(0.0),
        }
        .plan(&glm_source(100, bad_fps, None), 4, 8, single(2.0));
        let uniform = VideoSamplingStrategy::Uniform.plan(
            &glm_source(100, bad_fps, None),
            4,
            8,
            single(2.0),
        );
        assert_eq!(glm.indices, uniform.indices);
    }
}

#[test]
fn glm_video_fetch_config_reads_video_preprocessor_json() {
    let default_cfg = Glm53FlashSpec.video_fetch_config(None);
    assert_eq!(default_cfg.min_frames, 1);
    assert_eq!(default_cfg.max_frames, 2048);
    assert_eq!(default_cfg.sample_fps, single(2.0));
    assert_eq!(
        default_cfg.strategy,
        VideoSamplingStrategy::Glm5Next {
            max_duration: double(0.0)
        }
    );

    let pp_config =
        preprocessor_config(r#"{"fps": 1.0, "max_frames": 64, "max_duration": 300}"#);
    let cfg = Glm53FlashSpec.video_fetch_config(Some(&pp_config));
    assert_eq!(cfg.sample_fps, single(1.0));
    assert_eq!(cfg.max_frames, 64);
    assert_eq!(
        cfg.strategy,
        VideoSamplingStrategy::Glm5Next {
            max_duration: double(300.0)
        }
    );
}

#[test]
fn glm_config_of_wrong_type_keeps_the_defaults() {
    let config =
        preprocessor_config(r#"{"fps": "fast", "max_frames": -1, "max_duration": null}"#);
    assert_eq!(
        Glm53FlashSpec.video_fetch_config(Some(&config)),
        Glm53FlashSpec.video_fetch_config(None)
    );
}

#[test]
fn linspace_pins_both_ends() {
    assert_eq!(linspace_trunc(3, 15, 5), vec![3, 6, 9, 12, 15]);
    assert_eq!(linspace_trunc(0, 97, 4), vec![0, 32, 64, 97]);
    assert_eq!(linspace_trunc(7, 7, 3), vec![7, 7, 7]);
    assert_eq!(linspace_trunc(5, 9, 1), vec![5]);
    assert_eq!(linspace_trunc(9, 5, 1), vec![9]);
    assert!(linspace_trunc(9, 5, 0).is_empty());
}

#[test]
fn glm_matches_by_name() {
    let tokenizer = tokenizer();
    let config = json("{}");
    let matches = |model_id: &str| {
        Glm53FlashSpec.matches(&ModelMetadata {
            model_id,
            tokenizer: &tokenizer,
            config: &config,
        })
    };
    assert!(matches("zai-org/GLM-5.3-Flash"));
    assert!(matches("glm5.3-FLASH-awq"));
    assert!(matches("x/GLM-5-Next"));
    assert!(matches("glm5-next"));
    assert!(!matches("glm-5.3"));
    assert!(!matches(""));
}

#[test]
fn glm_placeholders_and_static_answers() {
    let tokenizer = tokenizer();
    let config = capable();
    let metadata = ModelMetadata {
        model_id: "x",
        tokenizer: &tokenizer,
        config: &config,
    };
    let spec = Glm53FlashSpec;
    assert_eq!(spec.name(), "glm53_flash");
    assert_eq!(spec.media_part_order(), MediaPartOrder::Authored);
    assert_eq!(spec.placeholder_token(&metadata).unwrap(), "<|image|>");
    assert_eq!(
        spec.placeholder_token_for(&metadata, Modality::Image).unwrap(),
        "<|image|>"
    );
    assert_eq!(
        spec.placeholder_token_for(&metadata, Modality::Video).unwrap(),
        "<|video|>"
    );
    assert_eq!(spec.placeholder_token_id(&metadata).unwrap(), 154854);
    assert_eq!(
        spec.placeholder_token_id_for(&metadata, Modality::Image).unwrap(),
        154854
    );
    assert_eq!(
        spec.placeholder_token_id_for(&metadata, Modality::Video).unwrap(),
        154854
    );
    let unsupported = ModelRegistryError::UnsupportedModality {
        spec: "glm53_flash",
        modality: Modality::Audio,
    };
    assert_eq!(
        spec.placeholder_token_for(&metadata, Modality::Audio).unwrap_err(),
        unsupported
    );
    assert_eq!(
        spec.placeholder_token_id_for(&metadata, Modality::Audio).unwrap_err(),
        unsupported
    );
    let input = PreprocessedEncoderInputs::new(vec![1]);
    assert_eq!(
        spec.prompt_replacements_for(&metadata, &input, Modality::Audio).unwrap_err(),
        unsupported
    );
    assert_eq!(Glm53FlashSpec::unsupported(Modality::Audio), unsupported);
    assert_eq!(spec.processor_kwargs(&metadata).unwrap(), json("{}"));
    assert_eq!(spec.keep_on_cpu_keys(), vec!["image_grid_thw", "video_grid_thw"]);
    let layouts = spec.field_layouts();
    assert_eq!(
        layouts.get("pixel_values"),
        Some(&FieldLayout::flat("patches_per_image"))
    );
    for key in [
        "image_grid_thw",
        "video_grid_thw",
        "patches_per_image",
        "patches_per_video",
        "video_second_per_grid",
    ] {
        assert_eq!(layouts.get(key), Some(&FieldLayout::Batched));
    }
    assert_eq!(layouts.len(), 6);
}

#[test]
fn glm_images_become_repeated_features() {
    let tokenizer = tokenizer();
    let config = capable();
    let metadata = ModelMetadata {
        model_id: "x",
        tokenizer: &tokenizer,
        config: &config,
    };
    let input = PreprocessedEncoderInputs::new(vec![3, 0]);
    for replacements in [
        Glm53FlashSpec.prompt_replacements(&metadata, &input).unwrap(),
        Glm53FlashSpec
            .prompt_replacements_for(&metadata, &input, Modality::Image)
            .unwrap(),
    ] {
        assert_eq!(replacements.len(), 2);
        assert_eq!(replacements[0].tokens, vec![154854; 3]);
        assert_eq!(replacements[0].placeholder_token, "<|image|>");
        assert_eq!(replacements[0].feature_ranges, None);
        assert_eq!(replacements[0].structural_prefix, 0);
        assert!(replacements[1].tokens.is_empty());
    }
    let empty = json("{}");
    let err = Glm53FlashSpec
        .prompt_replacements(
            &ModelMetadata {
                model_id: "x",
                tokenizer: &tokenizer,
                config: &empty,
            },
            &input,
        )
        .unwrap_err();
    assert_eq!(
        err,
        ModelRegistryError::MissingConfigField {
            field: "image_token_id".to_string()
        }
    );
}

fn invalid(field: &str) -> ModelRegistryError {
    ModelRegistryError::InvalidPreprocessedField {
        field: field.to_string(),
    }
}

#[test]
fn glm_grids_are_one_row_of_three_per_video() {
    let depths = |value: ModelSpecificValue| {
        Glm53FlashSpec::video_grid_t(
            &PreprocessedEncoderInputs::new(vec![]).with_extra("video_grid_thw", value),
        )
    };
    assert_eq!(
        depths(ModelSpecificValue::int_2d(vec![2, 9, 9, 5, -1, -1], 2, 3)).unwrap(),
        vec![2, 5]
    );
    assert!(depths(ModelSpecificValue::int_2d(vec![], 0, 3)).unwrap().is_empty());
    for bad in [
        ModelSpecificValue::int_2d(vec![2, 9, 9, -1, 9, 9], 2, 3),
        ModelSpecificValue::int_2d(vec![2, 9, 9], 2, 3),
        ModelSpecificValue::int_2d(vec![2, 9, 9, 9], 1, 3),
        ModelSpecificValue::int_2d(vec![], usize::MAX / 3 + 1, 3),
        ModelSpecificValue::IntTensor {
            data: vec![2, 9, 9],
            shape: vec![3],
        },
        ModelSpecificValue::Tensor {
            data: vec![single(2.0); 3],
            shape: vec![1, 3],
        },
    ] {
        assert_eq!(depths(bad).unwrap_err(), invalid("video_grid_thw"));
    }
    assert_eq!(
        Glm53FlashSpec::video_grid_t(&PreprocessedEncoderInputs::new(vec![])).unwrap_err(),
        invalid("video_grid_thw")
    );
}

#[test]
fn glm_errors_come_in_a_fixed_order() {
    let full = tokenizer();
    let no_end = TestTokenizer::new(&[(BEGIN, BEGIN_ID)]).with_byte_encoder(1000);
    let no_begin = TestTokenizer::new(&[]).with_byte_encoder(1000);
    let mute = TestTokenizer::new(&[(BEGIN, BEGIN_ID), (END, END_ID)]);
    let config = capable();
    let empty = json("{}");
    let error = |tokenizer: &TestTokenizer, config: &Value, input: &PreprocessedEncoderInputs| {
        Glm53FlashSpec
            .prompt_replacements_for(
                &ModelMetadata {
                    model_id: "x",
                    tokenizer,
                    config,
                },
                input,
                Modality::Video,
            )
            .unwrap_err()
    };
    let grid = || ModelSpecificValue::int_2d(vec![2, 2, 4], 1, 3);
    let bare = PreprocessedEncoderInputs::new(vec![4]);
    assert_eq!(error(&no_begin, &empty, &bare), invalid("video_grid_thw"));
    let two = PreprocessedEncoderInputs::new(vec![4, 4]).with_extra("video_grid_thw", grid());
    assert_eq!(
        error(&no_begin, &empty, &two),
        invalid("video_grid_thw item count")
    );
    let one = PreprocessedEncoderInputs::new(vec![4]).with_extra("video_grid_thw", grid());
    assert_eq!(
        error(&no_begin, &empty, &one),
        ModelRegistryError::MissingConfigField {
            field: "image_token_id".to_string()
        }
    );
    assert_eq!(
        error(&no_begin, &config, &one),
        ModelRegistryError::TokenNotFound {
            token: BEGIN.to_string()
        }
    );
    assert_eq!(
        error(&no_end, &config, &one),
        ModelRegistryError::TokenNotFound {
            token: END.to_string()
        }
    );
    assert_eq!(error(&mute, &config, &one), invalid("video_second_per_grid"));
    let zero = PreprocessedEncoderInputs::new(vec![4])
        .with_extra("video_grid_thw", ModelSpecificValue::int_2d(vec![0, 2, 4], 1, 3))
        .with_extra("video_second_per_grid", seconds_tensor(1.0));
    assert_eq!(
        error(&full, &config, &zero),
        invalid("video_grid_thw temporal token layout")
    );
    let whole = one.with_extra("video_second_per_grid", seconds_tensor(1.0));
    assert_eq!(
        error(&mute, &config, &whole),
        ModelRegistryError::TextEncodingFailed {
            spec: "glm53_flash",
            text: "0.0 seconds".to_string()
        }
    );
}

#[test]
fn glm_times_are_multiplied_in_single_precision() {
    let tokenizer = tokenizer();
    let config = capable();
    let metadata = ModelMetadata {
        model_id: "x",
        tokenizer: &tokenizer,
        config: &config,
    };
    for seconds in [0.1_f32, 1.0 / 3.0, 0.65, 2.5, 1e30, f32::NAN, f32::INFINITY] {
        let input = PreprocessedEncoderInputs::new(vec![60])
            .with_extra(
                "video_grid_thw",
                ModelSpecificValue::int_2d(vec![20, 2, 4], 1, 3),
            )
            .with_extra("video_second_per_grid", seconds_tensor(seconds));
        let replacement = Glm53FlashSpec
            .prompt_replacements_for(&metadata, &input, Modality::Video)
            .unwrap()
            .pop()
            .unwrap();
        let mut expected: Vec<TokenId> = Vec::new();
        for index in 0..20 {
            expected.push(BEGIN_ID as TokenId);
            expected.extend([IMAGE_ID as TokenId; 3]);
            expected.push(END_ID as TokenId);
            let text = format!("{:.1} seconds", index as f32 * seconds);
            expected.extend(text.bytes().map(|b| 1000 + TokenId::from(b)));
        }
        assert_eq!(replacement.tokens, expected);
        // The ranges hold nothing but features, and all of them.
        let ranges = replacement.feature_ranges.unwrap();
        assert_eq!(ranges.len(), 20);
        for range in &ranges {
            let features = &replacement.tokens[range.offset..range.offset + range.length];
            assert_eq!(features, [IMAGE_ID as TokenId; 3]);
        }
        for pair in ranges.windows(2) {
            assert!(pair[0].offset + pair[0].length < pair[1].offset);
        }
        assert_eq!(ranges.iter().map(|range| range.length).sum::<usize>(), 60);
    }
}
