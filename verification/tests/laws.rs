use llm_multimodal::encoder_inputs::{ModelSpecificValue, PreprocessedEncoderInputs};
use llm_multimodal::float::binary32::Binary32;
use llm_multimodal::float::binary64::Binary64;
use llm_multimodal::media::{VideoFetchConfig, ONE_BITS, TWO_BITS};
use llm_multimodal::registry::glm53_flash::{linspace_trunc, Glm53FlashSpec};
use llm_multimodal::registry::minimax_m3::MiniMaxM3VisionSpec;
use llm_multimodal::registry::qwen3_vl::{round_half_to_even, Qwen3VLVisionSpec};
use llm_multimodal::registry::{ModelMetadata, ModelProcessorSpec, ModelRegistryError, Tokenizer};
use llm_multimodal::types::{Modality, PlaceholderRange, TokenId};
use llm_multimodal::video_sampling::{VideoSamplingStrategy, VideoSourceMeta};
use serde_json::Value;

fn double(v: f64) -> Binary64 {
    Binary64::from_bits(v.to_bits())
}

fn single(v: f32) -> Binary32 {
    Binary32::from_bits(v.to_bits())
}

fn source(total_frames: usize, fps: f64) -> VideoSourceMeta {
    VideoSourceMeta {
        total_frames,
        original_fps: double(fps),
        duration_seconds: None,
    }
}

fn glm() -> VideoSamplingStrategy {
    VideoSamplingStrategy::Glm5Next {
        max_duration: double(0.0),
    }
}

fn in_order(indices: &[usize]) -> bool {
    indices.windows(2).all(|pair| pair[0] <= pair[1])
}

fn increasing(indices: &[usize]) -> bool {
    indices.windows(2).all(|pair| pair[0] < pair[1])
}

#[test]
fn uniform_keeps_to_its_bounds() {
    for (min, max) in [(4, 8), (0, 0), (1, 3), (8, 8)] {
        for total in [1, 2, 50, 1000] {
            let indices = VideoSamplingStrategy::Uniform
                .plan(&source(total, 24.0), min, max, single(2.0))
                .indices;
            assert!(min <= indices.len());
            assert!(indices.len() <= max || indices.len() == 1);
            assert_eq!(indices[0], 0);
            assert!(in_order(&indices));
        }
    }
}

#[test]
fn bounds_matter_where_a_plan_clamps() {
    let known = source(10, 30.0);
    let unknown = source(10, f64::NAN);
    let none = source(0, f64::NAN);
    assert!(VideoSamplingStrategy::Uniform.clamps(&known));
    assert!(VideoSamplingStrategy::Qwen3Vl.clamps(&unknown));
    assert!(glm().clamps(&unknown));
    assert!(!VideoSamplingStrategy::Qwen3Vl.clamps(&known));
    assert!(!glm().clamps(&known));
    assert!(!VideoSamplingStrategy::MiniMaxM3.clamps(&unknown));
    assert!(!VideoSamplingStrategy::Uniform.clamps(&none));
    // Where it does not, bounds may cross.
    assert_eq!(
        VideoSamplingStrategy::MiniMaxM3.plan(&unknown, 9, 3, single(1.0)).indices,
        vec![0]
    );
}

#[test]
fn uniform_grid_is_exact() {
    for (total, count) in [(100, 8), (97, 13), (7, 7), (3, 9), (1 << 40, 1000)] {
        let indices = VideoSamplingStrategy::Uniform
            .plan(&source(total, 0.0), count, count, single(2.0))
            .indices;
        for (i, index) in indices.iter().enumerate() {
            assert_eq!(*index, i * (total - 1) / (count - 1));
        }
        assert_eq!(*indices.last().unwrap(), total - 1);
    }
}

#[test]
fn uniform_passes_the_last_frame_beyond_its_precision() {
    let total = (1_usize << 53) + 4;
    let indices = VideoSamplingStrategy::Uniform
        .plan(&source(total, 0.0), 2, 2, single(2.0))
        .indices;
    assert_eq!(indices, vec![0, total]);
}

#[test]
fn plans_hold_frames_in_order() {
    for strategy in [
        VideoSamplingStrategy::Uniform,
        VideoSamplingStrategy::Qwen3Vl,
        glm(),
        VideoSamplingStrategy::MiniMaxM3,
    ] {
        for total in [0, 1, 2, 33, 500] {
            for fps in [30.0, 23.976, f64::NAN] {
                for rate in [2.0, 0.4, f32::INFINITY] {
                    let indices = strategy
                        .plan(&source(total, fps), 3, 40, single(rate))
                        .indices;
                    assert!(in_order(&indices));
                    assert!(indices.iter().all(|index| *index < total));
                    if total == 0 {
                        assert!(indices.is_empty());
                    }
                }
            }
        }
    }
    // As many frames as the law goes up to.
    let total = 1_usize << 51;
    let huge = VideoSourceMeta {
        total_frames: total,
        original_fps: double(1e13),
        duration_seconds: None,
    };
    for strategy in [
        VideoSamplingStrategy::Uniform,
        VideoSamplingStrategy::Qwen3Vl,
    ] {
        for count in [2, 3, 7, 1000, 4095] {
            let indices = strategy.plan(&huge, count, count, single(2.0)).indices;
            assert_eq!(indices.len(), count);
            assert!(in_order(&indices));
            assert!(indices.iter().all(|index| *index < total));
        }
    }
}

#[test]
fn qwen3_vl_picks_distinct_frames() {
    for total in [2, 3, 10, 98, 1001] {
        for (min, max) in [(4, 768), (1, 5), (2000, 2000), (0, 768), (0, 0)] {
            let indices = VideoSamplingStrategy::Qwen3Vl
                .plan(&source(total, 29.97), min, max, single(2.0))
                .indices;
            assert!(increasing(&indices));
            assert!(indices.len() <= total && indices.len() <= max);
            let truncated = (total as f64 / 29.97 * 2.0) as usize;
            assert_eq!(
                indices.is_empty(),
                max == 0 || truncated == 0 && min == 0
            );
            if !indices.is_empty() {
                assert_eq!(indices[0], 0);
            }
            if indices.len() > 1 {
                assert_eq!(*indices.last().unwrap(), total - 1);
            }
        }
    }
}

#[test]
fn qwen3_vl_grid_is_exact() {
    for (total, count) in [(98, 6), (6, 3), (1001, 77), (9, 9)] {
        let indices = VideoSamplingStrategy::Qwen3Vl
            .plan(&source(total, 1e9), count, count, single(2.0))
            .indices;
        for (i, index) in indices.iter().enumerate() {
            let (num, den) = (i * (total - 1), count - 1);
            let (floor, twice) = (num / den, 2 * (num % den));
            let nearest = if twice < den || twice == den && floor % 2 == 0 {
                floor
            } else {
                floor + 1
            };
            assert_eq!(*index, nearest);
        }
    }
}

#[test]
fn ties_go_to_even() {
    for (v, expected) in [
        (0.0, 0.0),
        (0.5, 0.0),
        (0.49999999999999994, 0.0),
        (0.5000000000000001, 1.0),
        (1.5, 2.0),
        (2.5, 2.0),
        (3.5, 4.0),
        (2251799813685247.5, 2251799813685248.0),
        (4503599627370495.5, 4503599627370496.0),
        (1e300, 1e300),
    ] {
        assert_eq!(round_half_to_even(double(v)), double(expected));
    }
}

#[test]
fn linspace_spans_its_ends() {
    for (start, end, num) in [(0, 97, 12), (5, 5, 4), (3, 1000, 997), (0, (1 << 52) - 1, 50)] {
        let values = linspace_trunc(start, end, num);
        assert_eq!(values.len(), num);
        assert_eq!(values[0], start);
        assert_eq!(*values.last().unwrap(), end);
        assert!(in_order(&values));
    }
}

#[test]
fn glm_counts_are_even() {
    for total in [1, 2, 17, 98, 301] {
        for fps in [30.0, 7.5, 0.2] {
            for rate in [2.0, 0.9, 31.0] {
                for max in [0, 1, 5, 64] {
                    let indices = glm().plan(&source(total, fps), 1, max, single(rate)).indices;
                    assert_eq!(indices.len() % 2, 0);
                    assert!(indices.len() <= max + 1);
                    assert!(in_order(&indices));
                    if !indices.is_empty() {
                        assert_eq!(indices[0], 0);
                        assert!(increasing(&indices[..indices.len() - 1]));
                    }
                }
            }
        }
    }
}

#[test]
fn glm_walk_keeps_the_first_frame_at_each_threshold() {
    // Clips whose walk has the wanted count, so that it is the plan.
    for (total, fps, duration, rate) in [
        (98, 30.0, 98.0 / 30.0, 2.0_f32),
        (120, 30.0, 4.0, 2.0),
        (60, 7.5, 8.0, 0.5),
    ] {
        let meta = VideoSourceMeta {
            total_frames: total,
            original_fps: double(fps),
            duration_seconds: Some(double(duration)),
        };
        let indices = glm().plan(&meta, 1, 2048, single(rate)).indices;
        let (frame_time, interval) = (1.0 / fps, 1.0 / f64::from(rate));
        let mut threshold = 0.0;
        let mut from = 0;
        for index in &indices {
            assert!(*index as f64 * frame_time >= threshold);
            for frame in from..*index {
                assert!((frame as f64 * frame_time) < threshold);
            }
            assert!(threshold < duration.floor());
            from = index + 1;
            threshold += interval;
        }
        assert!(threshold >= duration.floor());
    }
}

#[test]
fn minimax_m3_keeps_the_first_frame_past_each_target() {
    for (fps, rate) in [(30.0, 1.0_f32), (29.97, 2.0), (7.0, 3.3), (10.0, 100.0)] {
        let indices = VideoSamplingStrategy::MiniMaxM3
            .plan(&source(400, fps), 1, 768, single(rate))
            .indices;
        assert_eq!(indices[0], 0);
        assert!(increasing(&indices));
        for pair in indices.windows(2) {
            let target = (pair[0] as f64 / fps + 1.0 / f64::from(rate) - 1e-4) * fps;
            assert!(target <= pair[1] as f64);
            for between in pair[0] + 1..pair[1] {
                assert!((between as f64) < target);
            }
        }
    }
}

#[test]
fn default_rates_are_two_and_one() {
    assert_eq!(f32::from_bits(TWO_BITS), 2.0);
    assert_eq!(f32::from_bits(ONE_BITS), 1.0);
    let config = VideoFetchConfig::default();
    assert_eq!(config.sample_fps, single(2.0));
    assert_eq!(config.min_frames, 4);
    assert_eq!(config.max_frames, 768);
    assert_eq!(config.strategy, VideoSamplingStrategy::Uniform);
    assert_eq!(config.max_long_side_pixel, None);
}

/// Every listed token has its position as id; text is encoded byte by byte.
struct ListTokenizer {
    tokens: Vec<&'static str>,
}

impl Tokenizer for ListTokenizer {
    fn token_to_id(&self, token: &str) -> Option<u32> {
        self.tokens.iter().position(|t| *t == token).map(|i| i as u32)
    }

    fn id_to_token(&self, id: u32) -> Option<String> {
        self.tokens.get(id as usize).map(|t| t.to_string())
    }

    fn encode_text(&self, text: &str) -> Option<Vec<u32>> {
        Some(text.bytes().map(|b| 1000 + u32::from(b)).collect())
    }
}

fn json(text: &str) -> Value {
    serde_json::from_str(text).unwrap()
}

fn marks_features(
    tokens: &[TokenId],
    ranges: &[PlaceholderRange],
    feature: TokenId,
    count: usize,
) -> bool {
    ranges
        .iter()
        .all(|r| tokens[r.offset..r.offset + r.length].iter().all(|t| *t == feature))
        && ranges.windows(2).all(|p| p[0].offset + p[0].length < p[1].offset)
        && ranges.iter().map(|r| r.length).sum::<usize>() == count
}

fn m3_tokenizer() -> ListTokenizer {
    ListTokenizer {
        tokens: vec![
            "]<]image[>[",
            "]<]video[>[",
            "]<]start of image[>[",
            "]<]end of image[>[",
            "]<]start of video[>[",
            "]<]end of video[>[",
        ],
    }
}

#[test]
fn minimax_m3_requests_mark_the_features() {
    let tokenizer = m3_tokenizer();
    let config = json("{}");
    let metadata = ModelMetadata {
        model_id: "x",
        tokenizer: &tokenizer,
        config: &config,
    };
    for (modality, feature) in [(Modality::Image, 0), (Modality::Video, 1)] {
        for grid_t in [0, 1, 2, 5] {
            let counts = vec![10, 0, 7, 25];
            let inputs = PreprocessedEncoderInputs::new(counts.clone())
                .with_extra(
                    "video_grid_thw",
                    ModelSpecificValue::int_2d(vec![grid_t, 1, 1], 1, 3),
                )
                .with_extra(
                    "video_frames_indices",
                    ModelSpecificValue::int_2d(vec![0, 9, 18], 1, 3),
                )
                .with_extra(
                    "video_source_fps",
                    ModelSpecificValue::Tensor {
                        data: vec![single(9.0)],
                        shape: vec![1],
                    },
                );
            let all = MiniMaxM3VisionSpec
                .prompt_replacements_for(&metadata, &inputs, modality)
                .unwrap();
            assert_eq!(all.len(), counts.len());
            for (replacement, count) in all.iter().zip(counts) {
                assert_eq!(replacement.modality, modality);
                let ranges = replacement.feature_ranges.as_ref().unwrap();
                assert!(marks_features(&replacement.tokens, ranges, feature, count));
            }
        }
    }
}

#[test]
fn glm_videos_mark_the_features() {
    let tokenizer = ListTokenizer {
        tokens: vec!["<|begin_of_image|>", "<|end_of_image|>"],
    };
    let config = json(r#"{"image_token_id": 77}"#);
    let metadata = ModelMetadata {
        model_id: "x",
        tokenizer: &tokenizer,
        config: &config,
    };
    let inputs = PreprocessedEncoderInputs::new(vec![6, 20])
        .with_extra(
            "video_grid_thw",
            ModelSpecificValue::int_2d(vec![3, 1, 1, 4, 1, 1], 2, 3),
        )
        .with_extra(
            "video_second_per_grid",
            ModelSpecificValue::Tensor {
                data: vec![single(0.5)],
                shape: vec![1],
            },
        );
    let all = Glm53FlashSpec
        .prompt_replacements_for(&metadata, &inputs, Modality::Video)
        .unwrap();
    for (replacement, (count, grid_t)) in all.iter().zip([(6, 3), (20, 4)]) {
        let ranges = replacement.feature_ranges.as_ref().unwrap();
        assert_eq!(ranges.len(), grid_t);
        assert!(marks_features(&replacement.tokens, ranges, 77, count));
    }
}

#[test]
fn qwen3_vl_frames_are_opened_and_closed() {
    let tokenizer = ListTokenizer { tokens: vec![] };
    let config = json(r#"{"vision_start_token_id": 50, "vision_end_token_id": 51}"#);
    let metadata = ModelMetadata {
        model_id: "x",
        tokenizer: &tokenizer,
        config: &config,
    };
    let tokens =
        Qwen3VLVisionSpec::per_frame_video_tokens(&metadata, 9, 12, 3, double(2.0)).unwrap();
    let starts: Vec<usize> = (0..tokens.len()).filter(|i| tokens[*i] == 50).collect();
    let ends: Vec<usize> = (0..tokens.len()).filter(|i| tokens[*i] == 51).collect();
    assert_eq!(starts.len(), 2);
    assert_eq!(ends.len(), 2);
    for (start, end) in starts.iter().zip(&ends) {
        assert_eq!(&tokens[start + 1..start + 5], &[9, 9, 9, 9]);
        assert_eq!(&tokens[end - 4..*end], &[9, 9, 9, 9]);
        assert!(end < start);
    }
    assert_eq!(&tokens[tokens.len() - 4..], &[9, 9, 9, 9]);
    assert_eq!(tokens.iter().filter(|t| **t == 9).count(), 12);
}

#[test]
fn qwen3_vl_times_are_of_mean_frames() {
    let tokenizer = ListTokenizer { tokens: vec![] };
    let config = json(
        r#"{
            "vision_start_token_id": 50,
            "vision_end_token_id": 51,
            "vision_config": {"temporal_patch_size": 4}
        }"#,
    );
    let metadata = ModelMetadata {
        model_id: "x",
        tokenizer: &tokenizer,
        config: &config,
    };
    let tokens =
        Qwen3VLVisionSpec::per_frame_video_tokens(&metadata, 9, 3, 3, double(1.0)).unwrap();
    let text: String = tokens
        .iter()
        .filter(|t| **t >= 1000)
        .map(|t| char::from((*t - 1000) as u8))
        .collect();
    // Frames 0 to 3, 4 to 7 and 8 to 11.
    assert_eq!(text, "<1.5 seconds><5.5 seconds><9.5 seconds>");
}

#[test]
fn unadvertised_videos_are_refused() {
    let tokenizer = ListTokenizer { tokens: vec![] };
    let config = json(r#"{"image_token_id": 77}"#);
    let metadata = ModelMetadata {
        model_id: "x",
        tokenizer: &tokenizer,
        config: &config,
    };
    let inputs = PreprocessedEncoderInputs::new(vec![6]).with_extra(
        "video_grid_thw",
        ModelSpecificValue::int_2d(vec![3, 1, 1], 1, 3),
    );
    let limits = Glm53FlashSpec.modality_limits(&metadata).unwrap();
    assert_eq!(limits.get(&Modality::Image), Some(10));
    assert!(Glm53FlashSpec.prompt_replacements(&metadata, &inputs).is_ok());
    assert_eq!(limits.get(&Modality::Video), None);
    assert!(Glm53FlashSpec
        .prompt_replacements_for(&metadata, &inputs, Modality::Video)
        .is_err());
    assert_eq!(
        Qwen3VLVisionSpec
            .prompt_replacements_for(&metadata, &inputs, Modality::Video)
            .unwrap_err(),
        ModelRegistryError::MissingConfigField {
            field: "video_token_id".to_string()
        }
    );
    assert!(MiniMaxM3VisionSpec
        .prompt_replacements_for(&metadata, &inputs, Modality::Video)
        .is_err());
}

#[test]
fn names_match_in_any_case() {
    let tokenizer = ListTokenizer { tokens: vec![] };
    let config = json("{}");
    for name in ["Qwen/Qwen3-VL-8B", "zai-org/GLM-5.3-Flash", "MiniMaxAI/MiniMax-M3"] {
        let (lower, upper) = (name.to_ascii_lowercase(), name.to_ascii_uppercase());
        let families = |model_id: &str| {
            let metadata = ModelMetadata {
                model_id,
                tokenizer: &tokenizer,
                config: &config,
            };
            (
                Qwen3VLVisionSpec.matches(&metadata),
                Glm53FlashSpec.matches(&metadata),
                MiniMaxM3VisionSpec.matches(&metadata),
            )
        };
        assert_eq!(families(name), families(&lower));
        assert_eq!(families(name), families(&upper));
        assert_ne!(families(name), (false, false, false));
    }
}
