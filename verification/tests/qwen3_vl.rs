use llm_multimodal::encoder_inputs::{ModelSpecificValue, PreprocessedEncoderInputs};
use llm_multimodal::float::binary32::Binary32;
use llm_multimodal::float::binary64::Binary64;
use llm_multimodal::registry::glm53_flash::Glm53FlashSpec;
use llm_multimodal::registry::minimax_m3::MiniMaxM3VisionSpec;
use llm_multimodal::registry::qwen3_vl::{qwen3_video_fetch_config, Qwen3VLVisionSpec};
use llm_multimodal::registry::{ModelMetadata, ModelProcessorSpec, ModelRegistryError, Tokenizer};
use llm_multimodal::types::{FieldLayout, Modality, TokenId};
use llm_multimodal::video_sampling::{VideoSamplingStrategy, VideoSourceMeta};
use llm_multimodal::vision::{ExtraField, PreProcessorConfig};
use serde_json::Value;

fn double(v: f64) -> Binary64 {
    Binary64::from_bits(v.to_bits())
}

fn single(v: f32) -> Binary32 {
    Binary32::from_bits(v.to_bits())
}

/// A fixed vocabulary; text is encoded byte by byte where a base is set.
struct TestTokenizer {
    vocabulary: Vec<(String, u32)>,
    byte_base: Option<u32>,
}

impl TestTokenizer {
    fn new(vocabulary: &[(&str, u32)]) -> Self {
        TestTokenizer {
            vocabulary: vocabulary.iter().map(|(t, id)| (t.to_string(), *id)).collect(),
            byte_base: None,
        }
    }

    fn with_byte_encoder(mut self, base: u32) -> Self {
        self.byte_base = Some(base);
        self
    }
}

impl Tokenizer for TestTokenizer {
    fn token_to_id(&self, token: &str) -> Option<u32> {
        self.vocabulary.iter().find(|(t, _)| t == token).map(|(_, id)| *id)
    }

    fn id_to_token(&self, id: u32) -> Option<String> {
        self.vocabulary.iter().find(|(_, i)| *i == id).map(|(t, _)| t.clone())
    }

    fn encode_text(&self, text: &str) -> Option<Vec<u32>> {
        self.byte_base.map(|base| text.bytes().map(|b| base + u32::from(b)).collect())
    }
}

fn json(text: &str) -> Value {
    serde_json::from_str(text).unwrap()
}

fn preprocessor_config(text: &str) -> PreProcessorConfig {
    let mut config = PreProcessorConfig::new();
    let value = json(text);
    for (key, value) in value.as_object().unwrap() {
        let field = ExtraField {
            as_count: serde_json::from_value::<usize>(value.clone()).ok(),
            as_single: serde_json::from_value::<f32>(value.clone()).ok().map(single),
            as_double: serde_json::from_value::<f64>(value.clone()).ok().map(double),
        };
        config.extra.insert(key.clone(), field);
    }
    config
}

/// The families that claim a checkpoint.
fn claimed_by(metadata: &ModelMetadata<TestTokenizer>) -> Vec<&'static str> {
    let mut names = Vec::new();
    if Qwen3VLVisionSpec.matches(metadata) {
        names.push(Qwen3VLVisionSpec.name());
    }
    if Glm53FlashSpec.matches(metadata) {
        names.push(Glm53FlashSpec.name());
    }
    if MiniMaxM3VisionSpec.matches(metadata) {
        names.push(MiniMaxM3VisionSpec.name());
    }
    names
}

fn source(total_frames: usize, original_fps: f64) -> VideoSourceMeta {
    VideoSourceMeta {
        total_frames,
        original_fps: double(original_fps),
        duration_seconds: (original_fps.is_finite() && original_fps > 0.0)
            .then_some(double(total_frames as f64 / original_fps)),
    }
}

#[test]
fn qwen3_vl_truncates_fps_scaled_count() {
    // int(98/30 * 2) = int(6.533) = 6; the uniform round() would give 7.
    // linspace(0, 97, 6).round() = [0, 19, 39, 58, 78, 97].
    let plan = VideoSamplingStrategy::Qwen3Vl.plan(&source(98, 30.0), 4, 768, single(2.0));
    assert_eq!(plan.indices, vec![0, 19, 39, 58, 78, 97]);
}

#[test]
fn qwen3_vl_clamps_up_to_min_frames() {
    // int(10/30 * 2) = 0 -> clamped up to min_frames = 4.
    let plan = VideoSamplingStrategy::Qwen3Vl.plan(&source(10, 30.0), 4, 768, single(2.0));
    assert_eq!(plan.indices, vec![0, 3, 6, 9]);
}

#[test]
fn qwen3_vl_clamps_down_to_max_frames() {
    // int(100000/30 * 2) = 6666 -> clamped down to max_frames = 768.
    let plan = VideoSamplingStrategy::Qwen3Vl.plan(&source(100_000, 30.0), 4, 768, single(2.0));
    assert_eq!(plan.indices.len(), 768);
    assert_eq!(plan.indices[0], 0);
    assert_eq!(*plan.indices.last().unwrap(), 99_999);
}

#[test]
fn qwen3_vl_never_exceeds_total_frames_even_when_min_frames_is_higher() {
    // min(max(count, min_frames), max_frames, total): total wins.
    let plan = VideoSamplingStrategy::Qwen3Vl.plan(&source(3, 30.0), 4, 768, single(2.0));
    assert_eq!(plan.indices, vec![0, 1, 2]);
}

#[test]
fn qwen3_vl_rounds_half_to_even_like_numpy() {
    // int(6/4 * 2) = 3; linspace(0, 5, 3) = [0, 2.5, 5] and numpy rounds 2.5 to 2
    // (half-to-even) where f64::round would give 3.
    let plan = VideoSamplingStrategy::Qwen3Vl.plan(&source(6, 4.0), 1, 768, single(2.0));
    assert_eq!(plan.indices, vec![0, 2, 5]);
}

#[test]
fn qwen3_vl_matches_hf_count_for_fractional_rates() {
    // int(493/30 * 2) = int(32.867) = 32 frames spanning the whole clip.
    let plan = VideoSamplingStrategy::Qwen3Vl.plan(&source(493, 30.0), 4, 768, single(2.0));
    assert_eq!(plan.indices.len(), 32);
    assert_eq!(plan.indices[0], 0);
    assert_eq!(*plan.indices.last().unwrap(), 492);
}

#[test]
fn qwen3_vl_falls_back_to_uniform_when_fps_unknown() {
    for bad_fps in [0.0, -1.0, f64::NAN] {
        let qwen = VideoSamplingStrategy::Qwen3Vl.plan(&source(100, bad_fps), 4, 8, single(2.0));
        let uniform = VideoSamplingStrategy::Uniform.plan(&source(100, bad_fps), 4, 8, single(2.0));
        assert_eq!(qwen.indices, uniform.indices);
    }
}

#[test]
fn qwen3_vl_empty_source_yields_no_indices() {
    let plan = VideoSamplingStrategy::Qwen3Vl.plan(&source(0, 30.0), 4, 8, single(2.0));
    assert!(plan.indices.is_empty());
}

#[test]
fn qwen3_vl_pad_only_replacement() {
    let tokenizer = TestTokenizer::new(&[("<image>", 999), ("<|image_pad|>", 151655)]);
    let config = json(
        r#"{
            "model_type": "qwen3_vl",
            "vision_start_token_id": 151652,
            "image_token_id": 151655,
            "vision_end_token_id": 151653,
            "vision_config": {"patch_size": 16}
        }"#,
    );
    let metadata = ModelMetadata {
        model_id: "Qwen3-VL-7B",
        tokenizer: &tokenizer,
        config: &config,
    };
    assert_eq!(claimed_by(&metadata), vec!["qwen3_vl"]);
    // 448/16 = 28 grid, merge_size=2 => (28*28)/4 = 196 tokens
    let replacements = Qwen3VLVisionSpec
        .prompt_replacements(&metadata, &PreprocessedEncoderInputs::new(vec![196]))
        .unwrap();
    // Only pad tokens: vision_start/vision_end are already in the chat template
    assert_eq!(replacements[0].tokens.len(), 196);
    assert_eq!(replacements[0].tokens[0], 151655); // pad (image_token_id)
    assert_eq!(*replacements[0].tokens.last().unwrap(), 151655); // pad
}

#[test]
fn qwen3_vl_video_pad_replacement() {
    let tokenizer = TestTokenizer::new(&[("<|video_pad|>", 151656)]);
    let config = json(
        r#"{
            "model_type": "qwen3_5",
            "image_token_id": 151655,
            "video_token_id": 151656
        }"#,
    );
    let metadata = ModelMetadata {
        model_id: "Qwen3.5-VL-7B",
        tokenizer: &tokenizer,
        config: &config,
    };
    assert_eq!(claimed_by(&metadata), vec!["qwen3_vl"]);
    let replacements = Qwen3VLVisionSpec
        .prompt_replacements_for(
            &metadata,
            &PreprocessedEncoderInputs::new(vec![128]),
            Modality::Video,
        )
        .unwrap();

    assert_eq!(replacements[0].modality, Modality::Video);
    assert_eq!(replacements[0].tokens.len(), 128);
    assert_eq!(replacements[0].tokens[0], 151656);
}

#[test]
fn qwen3_5_video_replacement_splits_temporal_grid() {
    let tokenizer = TestTokenizer::new(&[
        ("<|video_pad|>", 151656),
        ("<|vision_start|>", 151652),
        ("<|vision_end|>", 151653),
    ]);
    let config = json(
        r#"{
            "model_type": "qwen3_5",
            "image_token_id": 151655,
            "video_token_id": 151656,
            "vision_start_token_id": 151652,
            "vision_end_token_id": 151653
        }"#,
    );
    let metadata = ModelMetadata {
        model_id: "Qwen/Qwen3.5-4B",
        tokenizer: &tokenizer,
        config: &config,
    };
    assert_eq!(claimed_by(&metadata), vec!["qwen3_vl"]);
    let preprocessed = PreprocessedEncoderInputs::new(vec![160]).with_extra(
        "video_grid_thw",
        ModelSpecificValue::int_2d(vec![2, 16, 20], 1, 3),
    );
    let replacements = Qwen3VLVisionSpec
        .prompt_replacements_for(&metadata, &preprocessed, Modality::Video)
        .unwrap();

    let tokens = &replacements[0].tokens;
    assert_eq!(tokens.len(), 162);
    assert!(tokens[..80].iter().all(|&token| token == 151656));
    assert_eq!(tokens[80], 151653);
    assert_eq!(tokens[81], 151652);
    assert!(tokens[82..].iter().all(|&token| token == 151656));
}

#[test]
fn qwen3_vl_video_splits_temporal_grid() {
    // Base Qwen3-VL (not the 3.5/3.6 family) also emits one vision block per
    // temporal frame.
    let tokenizer = TestTokenizer::new(&[
        ("<|video_pad|>", 151656),
        ("<|vision_start|>", 151652),
        ("<|vision_end|>", 151653),
    ]);
    let config = json(
        r#"{
            "model_type": "qwen3_vl",
            "image_token_id": 151655,
            "video_token_id": 151656,
            "vision_start_token_id": 151652,
            "vision_end_token_id": 151653
        }"#,
    );
    let metadata = ModelMetadata {
        model_id: "Qwen/Qwen3-VL-8B-Instruct",
        tokenizer: &tokenizer,
        config: &config,
    };
    assert_eq!(claimed_by(&metadata), vec!["qwen3_vl"]);
    let preprocessed = PreprocessedEncoderInputs::new(vec![160]).with_extra(
        "video_grid_thw",
        ModelSpecificValue::int_2d(vec![2, 16, 20], 1, 3),
    );
    let replacements = Qwen3VLVisionSpec
        .prompt_replacements_for(&metadata, &preprocessed, Modality::Video)
        .unwrap();

    // Two temporal frames -> a vision_end/vision_start seam splits the 160 pads
    // into two 80-token halves (mirrors the 3.5 case above).
    let tokens = &replacements[0].tokens;
    assert_eq!(tokens.len(), 162);
    assert!(tokens[..80].iter().all(|&token| token == 151656));
    assert_eq!(tokens[80], 151653);
    assert_eq!(tokens[81], 151652);
    assert!(tokens[82..].iter().all(|&token| token == 151656));
}

#[test]
fn qwen2_vl_does_not_match_qwen3() {
    let tokenizer = TestTokenizer::new(&[("<image>", 999)]);
    let config = json(
        r#"{
            "model_type": "qwen3_vl",
            "vision_start_token_id": 151652,
            "image_token_id": 151655,
            "vision_end_token_id": 151653,
            "vision_config": {"patch_size": 16}
        }"#,
    );
    let metadata = ModelMetadata {
        model_id: "Qwen3-VL-7B",
        tokenizer: &tokenizer,
        config: &config,
    };
    assert_eq!(claimed_by(&metadata), vec!["qwen3_vl"]);
    // A Qwen2-VL checkpoint is not claimed.
    let qwen2 = json(r#"{"model_type": "qwen2_vl"}"#);
    let metadata = ModelMetadata {
        model_id: "Qwen2-VL-7B",
        tokenizer: &tokenizer,
        config: &qwen2,
    };
    assert!(claimed_by(&metadata).is_empty());
}

#[test]
fn qwen3_vl_matches_alias_via_model_type() {
    let tokenizer = TestTokenizer::new(&[("<|image_pad|>", 151655)]);
    let config = json(
        r#"{
            "model_type": "qwen3_vl",
            "vision_start_token_id": 151652,
            "image_token_id": 151655,
            "vision_end_token_id": 151653
        }"#,
    );
    let metadata = ModelMetadata {
        model_id: "custom-model",
        tokenizer: &tokenizer,
        config: &config,
    };
    assert_eq!(claimed_by(&metadata), vec!["qwen3_vl"]);
}

#[test]
fn qwen3_5_matches_alias_via_model_type() {
    let tokenizer = TestTokenizer::new(&[("<|image_pad|>", 151655)]);
    let config = json(r#"{"model_type": "qwen3_5_moe", "image_token_id": 151655}"#);
    let metadata = ModelMetadata {
        model_id: "custom-model",
        tokenizer: &tokenizer,
        config: &config,
    };
    assert_eq!(claimed_by(&metadata), vec!["qwen3_vl"]);
}

#[test]
fn qwen4_exp_matches_alias_via_model_type() {
    let tokenizer = TestTokenizer::new(&[("<|image_pad|>", 151655)]);
    let config = json(r#"{"model_type": "qwen4_exp", "image_token_id": 151655}"#);
    let metadata = ModelMetadata {
        model_id: "custom-model",
        tokenizer: &tokenizer,
        config: &config,
    };
    assert_eq!(claimed_by(&metadata), vec!["qwen3_vl"]);
}

/// Extract the plain-text fragments a replacement spliced in (timestamps), given
/// a tokenizer byte-encoded at `base`.
fn replacement_text(tokens: &[TokenId], base: u32) -> String {
    tokens
        .iter()
        .filter(|&&token| (base..base + 256).contains(&(token as u32)))
        .map(|&token| char::from((token as u32 - base) as u8))
        .collect()
}

fn video_timestamp_setup() -> (TestTokenizer, Value) {
    let tokenizer = TestTokenizer::new(&[
        ("<|video_pad|>", 151656),
        ("<|vision_start|>", 151652),
        ("<|vision_end|>", 151653),
    ])
    .with_byte_encoder(1000);
    let config = json(
        r#"{
            "model_type": "qwen3_vl",
            "image_token_id": 151655,
            "video_token_id": 151656,
            "vision_start_token_id": 151652,
            "vision_end_token_id": 151653,
            "vision_config": {"temporal_patch_size": 2}
        }"#,
    );
    (tokenizer, config)
}

#[test]
fn qwen3_vl_video_timestamps_follow_preprocessed_fps() {
    let (tokenizer, config) = video_timestamp_setup();
    let metadata = ModelMetadata {
        model_id: "Qwen/Qwen3-VL-8B-Instruct",
        tokenizer: &tokenizer,
        config: &config,
    };
    assert_eq!(claimed_by(&metadata), vec!["qwen3_vl"]);
    // second_per_grid = 0.5 with temporal_patch_size = 2 -> effective fps = 4, so
    // frame 1 is timestamped (2 + 0.5) / 4 = 0.625 -> "<0.6 seconds>" instead of
    // the 2 fps default's "<1.2 seconds>".
    let preprocessed = PreprocessedEncoderInputs::new(vec![160])
        .with_extra(
            "video_grid_thw",
            ModelSpecificValue::int_2d(vec![2, 16, 20], 1, 3),
        )
        .with_extra(
            "video_second_per_grid",
            ModelSpecificValue::Tensor {
                data: vec![single(0.5)],
                shape: vec![1],
            },
        );
    let replacements = Qwen3VLVisionSpec
        .prompt_replacements_for(&metadata, &preprocessed, Modality::Video)
        .unwrap();

    let text = replacement_text(&replacements[0].tokens, 1000);
    assert!(text.contains("<0.1 seconds>"), "timestamps: {text}");
    assert!(text.contains("<0.6 seconds>"), "timestamps: {text}");
    assert!(!text.contains("<1.2 seconds>"), "timestamps: {text}");
}

#[test]
fn qwen3_vl_video_timestamps_fall_back_to_default_fps() {
    let (tokenizer, config) = video_timestamp_setup();
    let metadata = ModelMetadata {
        model_id: "Qwen/Qwen3-VL-8B-Instruct",
        tokenizer: &tokenizer,
        config: &config,
    };
    assert_eq!(claimed_by(&metadata), vec!["qwen3_vl"]);
    // No video_second_per_grid -> default 2 fps: frame 1 is (2 + 0.5) / 2 = 1.25
    // -> "<1.2 seconds>".
    let preprocessed = PreprocessedEncoderInputs::new(vec![160]).with_extra(
        "video_grid_thw",
        ModelSpecificValue::int_2d(vec![2, 16, 20], 1, 3),
    );
    let replacements = Qwen3VLVisionSpec
        .prompt_replacements_for(&metadata, &preprocessed, Modality::Video)
        .unwrap();

    let text = replacement_text(&replacements[0].tokens, 1000);
    assert!(text.contains("<0.2 seconds>"), "timestamps: {text}");
    assert!(text.contains("<1.2 seconds>"), "timestamps: {text}");
}

#[test]
fn qwen3_vl_video_fetch_config_reads_video_preprocessor_json() {
    let tokenizer = TestTokenizer::new(&[]);
    let config = json(r#"{"model_type": "qwen3_vl"}"#);
    let metadata = ModelMetadata {
        model_id: "Qwen/Qwen3-VL-8B-Instruct",
        tokenizer: &tokenizer,
        config: &config,
    };
    assert_eq!(claimed_by(&metadata), vec!["qwen3_vl"]);

    let cfg = Qwen3VLVisionSpec.video_fetch_config(None);
    assert_eq!(cfg.strategy, VideoSamplingStrategy::Qwen3Vl);
    assert_eq!(cfg.sample_fps, single(2.0));
    assert_eq!(cfg.min_frames, 4);
    assert_eq!(cfg.max_frames, 768);

    let pp_config = preprocessor_config(r#"{"fps": 1.0, "min_frames": 8, "max_frames": 64}"#);
    let cfg = Qwen3VLVisionSpec.video_fetch_config(Some(&pp_config));
    assert_eq!(cfg.strategy, VideoSamplingStrategy::Qwen3Vl);
    assert_eq!(cfg.sample_fps, single(1.0));
    assert_eq!(cfg.min_frames, 8);
    assert_eq!(cfg.max_frames, 64);
}

#[test]
fn qwen3_video_fetch_config_uses_hf_defaults_without_json() {
    let cfg = qwen3_video_fetch_config(None);
    assert_eq!(cfg.min_frames, 4);
    assert_eq!(cfg.max_frames, 768);
    assert_eq!(cfg.sample_fps, single(2.0));
    assert_eq!(cfg.strategy, VideoSamplingStrategy::Qwen3Vl);
}

#[test]
fn qwen3_video_fetch_config_prefers_json_extra_fields() {
    let pp_config = preprocessor_config(
        r#"{"video_processor_type": "Qwen3VLVideoProcessor", "fps": 1.0, "min_frames": 8, "max_frames": 64}"#,
    );
    let cfg = qwen3_video_fetch_config(Some(&pp_config));
    assert_eq!(cfg.min_frames, 8);
    assert_eq!(cfg.max_frames, 64);
    assert_eq!(cfg.sample_fps, single(1.0));
    assert_eq!(cfg.strategy, VideoSamplingStrategy::Qwen3Vl);

    // Partial JSON: only the given keys override, the rest keep defaults.
    let pp_config = preprocessor_config(r#"{"fps": 0.5}"#);
    let cfg = qwen3_video_fetch_config(Some(&pp_config));
    assert_eq!(cfg.min_frames, 4);
    assert_eq!(cfg.max_frames, 768);
    assert_eq!(cfg.sample_fps, single(0.5));
}

fn seconds_tensor(seconds: f32) -> ModelSpecificValue {
    ModelSpecificValue::Tensor {
        data: vec![single(seconds)],
        shape: vec![1],
    }
}

#[test]
fn frame_rate_comes_from_seconds_per_grid() {
    let tokenizer = TestTokenizer::new(&[]);
    let config = json(r#"{"vision_config": {"temporal_patch_size": 3}}"#);
    let metadata = ModelMetadata {
        model_id: "x",
        tokenizer: &tokenizer,
        config: &config,
    };
    let fps = |value: Option<ModelSpecificValue>| {
        let inputs = PreprocessedEncoderInputs::new(vec![]);
        let inputs = match value {
            Some(value) => inputs.with_extra("video_second_per_grid", value),
            None => inputs,
        };
        Qwen3VLVisionSpec::video_sample_fps(&metadata, &inputs)
    };
    assert_eq!(fps(Some(seconds_tensor(0.7))), double(3.0 / f64::from(0.7_f32)));
    assert_eq!(fps(None), double(2.0));
    for degenerate in [0.0, -1.0, f32::NAN, f32::INFINITY] {
        assert_eq!(fps(Some(seconds_tensor(degenerate))), double(2.0));
    }
    let empty = ModelSpecificValue::Tensor {
        data: vec![],
        shape: vec![0],
    };
    assert_eq!(fps(Some(empty)), double(2.0));
    // A patch size of 0 leaves no usable rate.
    let zero = json(r#"{"vision_config": {"temporal_patch_size": 0}}"#);
    let metadata = ModelMetadata {
        model_id: "x",
        tokenizer: &tokenizer,
        config: &zero,
    };
    let inputs = PreprocessedEncoderInputs::new(vec![])
        .with_extra("video_second_per_grid", seconds_tensor(0.5));
    assert_eq!(
        Qwen3VLVisionSpec::video_sample_fps(&metadata, &inputs),
        double(2.0)
    );
}

#[test]
fn frames_are_laid_out_between_seams() {
    let (tokenizer, config) = video_timestamp_setup();
    let metadata = ModelMetadata {
        model_id: "x",
        tokenizer: &tokenizer,
        config: &config,
    };
    for fps in [2.0, 4.0, 0.3, 23.976] {
        let tokens =
            Qwen3VLVisionSpec::per_frame_video_tokens(&metadata, 5, 12, 4, double(fps)).unwrap();
        let mut expected: Vec<TokenId> = Vec::new();
        for i in 0..4 {
            let seconds = (i as f64 * 2.0 + (2.0 - 1.0) / 2.0) / fps;
            if i > 0 {
                expected.push(151653);
            }
            let text = format!("<{seconds:.1} seconds>");
            expected.extend(text.bytes().map(|b| 1000 + TokenId::from(b)));
            if i > 0 {
                expected.push(151652);
            }
            expected.extend([5, 5, 5]);
        }
        assert_eq!(tokens, expected);
    }
    for (count, grid_t) in [(12, 1), (12, 0), (0, 4), (13, 4)] {
        assert!(Qwen3VLVisionSpec::per_frame_video_tokens(
            &metadata,
            5,
            count,
            grid_t,
            double(2.0)
        )
        .is_none());
    }
}

#[test]
fn a_missing_vision_marker_falls_back_to_a_flat_block() {
    let tokenizer = TestTokenizer::new(&[("<|video_pad|>", 151656)]).with_byte_encoder(1000);
    for config in [
        r#"{"video_token_id": 151656, "vision_start_token_id": 1}"#,
        r#"{"video_token_id": 151656, "vision_end_token_id": 2}"#,
    ] {
        let config = json(config);
        let metadata = ModelMetadata {
            model_id: "x",
            tokenizer: &tokenizer,
            config: &config,
        };
        let preprocessed = PreprocessedEncoderInputs::new(vec![6]).with_extra(
            "video_grid_thw",
            ModelSpecificValue::int_2d(vec![2, 16, 20], 1, 3),
        );
        let replacements = Qwen3VLVisionSpec
            .prompt_replacements_for(&metadata, &preprocessed, Modality::Video)
            .unwrap();
        assert_eq!(replacements[0].tokens, vec![151656; 6]);
        assert_eq!(replacements[0].structural_prefix, 1);
        assert_eq!(replacements[0].feature_ranges, None);
        assert_eq!(replacements[0].placeholder_token, "<|video_pad|>");
    }
}

#[test]
fn qwen_errors_name_what_is_missing() {
    let tokenizer = TestTokenizer::new(&[]);
    let input = PreprocessedEncoderInputs::new(vec![1]);
    let empty = json("{}");
    let metadata = ModelMetadata {
        model_id: "x",
        tokenizer: &tokenizer,
        config: &empty,
    };
    let missing = |field: &str| ModelRegistryError::MissingConfigField {
        field: field.to_string(),
    };
    assert_eq!(
        Qwen3VLVisionSpec.prompt_replacements(&metadata, &input).unwrap_err(),
        missing("image_token_id")
    );
    assert_eq!(
        Qwen3VLVisionSpec
            .prompt_replacements_for(&metadata, &input, Modality::Video)
            .unwrap_err(),
        missing("video_token_id")
    );
    assert_eq!(
        Qwen3VLVisionSpec::image_pad_token_id(&metadata).unwrap_err(),
        missing("image_token_id")
    );
    assert_eq!(
        Qwen3VLVisionSpec::video_pad_token_id(&metadata).unwrap_err(),
        missing("video_token_id")
    );
    assert_eq!(Qwen3VLVisionSpec::vision_start_token_id(&metadata), None);
    assert_eq!(Qwen3VLVisionSpec::vision_end_token_id(&metadata), None);
    let limits = Qwen3VLVisionSpec.modality_limits(&metadata).unwrap();
    assert_eq!(limits.get(&Modality::Image), Some(10));
    assert_eq!(limits.get(&Modality::Video), None);

    let declared = json(r#"{"image_token_id": 4294967295, "video_token_id": 70}"#);
    let metadata = ModelMetadata {
        model_id: "x",
        tokenizer: &tokenizer,
        config: &declared,
    };
    let unknown = |token: &str| ModelRegistryError::TokenNotFound {
        token: token.to_string(),
    };
    // An id is kept as 32 bits, so the largest one reads as -1.
    assert_eq!(
        Qwen3VLVisionSpec.placeholder_token(&metadata).unwrap_err(),
        unknown("image_token_id:-1")
    );
    assert_eq!(
        Qwen3VLVisionSpec
            .placeholder_token_for(&metadata, Modality::Video)
            .unwrap_err(),
        unknown("video_token_id:70")
    );
    assert_eq!(
        Qwen3VLVisionSpec::token_for_id(&metadata, TokenId::MIN, "field").unwrap_err(),
        unknown("field:-2147483648")
    );
    assert_eq!(
        Qwen3VLVisionSpec
            .placeholder_token_id_for(&metadata, Modality::Video)
            .unwrap(),
        70
    );
    assert_eq!(
        Qwen3VLVisionSpec.placeholder_token_id(&metadata).unwrap(),
        -1
    );
    assert_eq!(
        Qwen3VLVisionSpec
            .modality_limits(&metadata)
            .unwrap()
            .get(&Modality::Video),
        Some(1)
    );
    let unsupported = ModelRegistryError::UnsupportedModality {
        spec: "qwen3_vl",
        modality: Modality::Audio,
    };
    assert_eq!(
        Qwen3VLVisionSpec
            .prompt_replacements_for(&metadata, &input, Modality::Audio)
            .unwrap_err(),
        unsupported
    );
    assert_eq!(
        Qwen3VLVisionSpec
            .placeholder_token_for(&metadata, Modality::Audio)
            .unwrap_err(),
        unsupported
    );
    assert_eq!(
        Qwen3VLVisionSpec
            .placeholder_token_id_for(&metadata, Modality::Audio)
            .unwrap_err(),
        unsupported
    );
}

#[test]
fn configuration_numbers_are_unsigned_and_fit_32_bits() {
    let tokenizer = TestTokenizer::new(&[]);
    let config = json(
        r#"{"a": 7, "b": -7, "c": 4294967296, "d": 7.0, "e": "7", "f": {"g": {"h": 9}}, "i": [7]}"#,
    );
    let metadata = ModelMetadata {
        model_id: "x",
        tokenizer: &tokenizer,
        config: &config,
    };
    assert_eq!(metadata.config_u32(&["a"]), Some(7));
    for field in ["b", "c", "d", "e", "f", "i", "z"] {
        assert_eq!(metadata.config_u32(&[field]), None);
    }
    assert_eq!(metadata.config_u32(&["f", "g", "h"]), Some(9));
    assert_eq!(metadata.config_u32(&["f", "g", "x"]), None);
    assert_eq!(metadata.config_u32(&["a", "g"]), None);
    assert_eq!(metadata.config_u32(&["i", "0"]), None);
    assert_eq!(metadata.config_u32(&[]), None);
    let number = json("12");
    let metadata = ModelMetadata {
        model_id: "x",
        tokenizer: &tokenizer,
        config: &number,
    };
    assert_eq!(metadata.config_u32(&[]), Some(12));
    assert_eq!(metadata.config_model_type(), None);
}

#[test]
fn plain_text_that_cannot_be_encoded_is_left_out() {
    let mute = TestTokenizer::new(&[]);
    let empty = json("{}");
    let metadata = ModelMetadata {
        model_id: "x",
        tokenizer: &mute,
        config: &empty,
    };
    assert!(Qwen3VLVisionSpec::encode_plain_text(&metadata, "ab").is_empty());
    let spoken = TestTokenizer::new(&[]).with_byte_encoder(1000);
    let metadata = ModelMetadata {
        model_id: "x",
        tokenizer: &spoken,
        config: &empty,
    };
    assert_eq!(
        Qwen3VLVisionSpec::encode_plain_text(&metadata, "ab"),
        vec![1097, 1098]
    );
}

#[test]
fn qwen_matches_by_name() {
    let tokenizer = TestTokenizer::new(&[]);
    let config = json("{}");
    let matches = |model_id: &str| {
        Qwen3VLVisionSpec.matches(&ModelMetadata {
            model_id,
            tokenizer: &tokenizer,
            config: &config,
        })
    };
    assert!(matches("QWEN/QWEN3-VL-8B"));
    assert!(matches("Qwen/Qwen3.5-4B"));
    assert!(matches("qwen3.6"));
    assert!(!matches("Qwen/Qwen3-8B"));
    assert!(!matches("Qwen/Qwen2.5-VL"));
}

#[test]
fn qwen_static_answers() {
    let spec = Qwen3VLVisionSpec;
    let tokenizer = TestTokenizer::new(&[]);
    let config = json("{}");
    let metadata = ModelMetadata {
        model_id: "x",
        tokenizer: &tokenizer,
        config: &config,
    };
    assert_eq!(spec.name(), "qwen3_vl");
    assert_eq!(spec.processor_kwargs(&metadata).unwrap(), json("{}"));
    assert_eq!(spec.keep_on_cpu_keys(), vec!["image_grid_thw", "video_grid_thw"]);
    let layouts = spec.field_layouts();
    assert_eq!(layouts.len(), 6);
    assert_eq!(
        layouts.get("pixel_values"),
        Some(&FieldLayout::flat("patches_per_image"))
    );
    for key in [
        "image_grid_thw",
        "patches_per_image",
        "video_grid_thw",
        "patches_per_video",
        "video_second_per_grid",
    ] {
        assert_eq!(layouts.get(key), Some(&FieldLayout::Batched));
    }
}
