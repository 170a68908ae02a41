use llm_multimodal::float::binary32::Binary32;
use llm_multimodal::float::binary64::Binary64;
use llm_multimodal::video_sampling::{VideoSamplingStrategy, VideoSourceMeta};

fn double(v: f64) -> Binary64 {
    Binary64::from_bits(v.to_bits())
}

fn single(v: f32) -> Binary32 {
    Binary32::from_bits(v.to_bits())
}

fn source(total_frames: usize, original_fps: f64) -> VideoSourceMeta {
    VideoSourceMeta {
        total_frames,
        original_fps: double(original_fps),
        duration_seconds: (original_fps.is_finite() && original_fps > 0.0)
            .then_some(double(total_frames as f64 / original_fps)),
    }
}

#[test]
fn uniform_preserves_min_frames_for_short_clips() {
    let plan = VideoSamplingStrategy::Uniform.plan(&source(1, 30.0), 4, 8, single(2.0));
    assert_eq!(plan.indices, vec![0, 0, 0, 0]);
}

#[test]
fn uniform_uses_rounded_fps_scaled_count_and_floor_linspace() {
    // duration = 100/25 = 4s -> round(4 * 2) = 8 frames over [0, 99].
    let plan = VideoSamplingStrategy::Uniform.plan(&source(100, 25.0), 4, 768, single(2.0));
    assert_eq!(plan.indices, vec![0, 14, 28, 42, 56, 70, 84, 99]);
}

#[test]
fn uniform_falls_back_to_max_frames_when_fps_unknown() {
    for bad_fps in [0.0, -1.0, f64::NAN] {
        let plan = VideoSamplingStrategy::Uniform.plan(&source(100, bad_fps), 4, 8, single(2.0));
        assert_eq!(plan.indices, vec![0, 14, 28, 42, 56, 70, 84, 99]);
    }
}

#[test]
fn uniform_single_target_is_frame_zero() {
    let plan = VideoSamplingStrategy::Uniform.plan(&source(100, 25.0), 1, 1, single(2.0));
    assert_eq!(plan.indices, vec![0]);
}

#[test]
fn uniform_empty_source_yields_no_indices() {
    let plan = VideoSamplingStrategy::Uniform.plan(&source(0, 30.0), 4, 8, single(2.0));
    assert!(plan.indices.is_empty());
}

#[test]
fn default_strategy_is_uniform() {
    assert_eq!(
        VideoSamplingStrategy::default(),
        VideoSamplingStrategy::Uniform
    );
}

fn native_uniform(total: usize, fps: f64, min: usize, max: usize, rate: f32) -> Vec<usize> {
    if total == 0 {
        return Vec::new();
    }
    let mut target = if fps.is_finite() && fps > 0.0 {
        (total as f64 / fps * f64::from(rate)).round() as usize
    } else {
        max
    };
    target = target.clamp(min, max).max(1);
    if target == 1 {
        return vec![0];
    }
    let last = (total - 1) as f64;
    let denom = (target - 1) as f64;
    (0..target)
        .map(|i| ((i as f64 * last) / denom).floor() as usize)
        .collect()
}

fn native_half_to_even(value: f64) -> f64 {
    let floor = value.floor();
    let fraction = value - floor;
    if fraction < 0.5 {
        floor
    } else if fraction > 0.5 {
        floor + 1.0
    } else if floor % 2.0 == 0.0 {
        floor
    } else {
        floor + 1.0
    }
}

fn native_qwen(total: usize, fps: f64, min: usize, max: usize, rate: f32) -> Vec<usize> {
    if total == 0 {
        return Vec::new();
    }
    if !(fps.is_finite() && fps > 0.0) {
        return native_uniform(total, fps, min, max, rate);
    }
    let count = (total as f64 / fps * f64::from(rate)) as usize;
    let count = count.max(min).min(max).min(total);
    if count == 0 {
        return Vec::new();
    }
    if count == 1 {
        return vec![0];
    }
    let last = (total - 1) as f64;
    let denom = (count - 1) as f64;
    (0..count)
        .map(|i| native_half_to_even(i as f64 * last / denom) as usize)
        .collect()
}

fn native_linspace(start: usize, end: usize, num: usize) -> Vec<usize> {
    if num == 0 {
        return Vec::new();
    }
    if num == 1 {
        return vec![start];
    }
    let step = (end - start) as f64 / (num - 1) as f64;
    let mut values: Vec<usize> = (0..num)
        .map(|i| (start as f64 + i as f64 * step) as usize)
        .collect();
    *values.last_mut().unwrap() = end;
    values
}

fn native_glm(source: (usize, f64, Option<f64>), max: usize, rate: f32, cap: f64) -> Vec<usize> {
    let (total, fps, duration) = source;
    let last = total - 1;
    let duration = duration
        .filter(|d| d.is_finite() && *d > 0.0)
        .unwrap_or_else(|| (last as f64 / fps).round() + 1.0);
    let max_seconds = duration as u64;
    let duration = if cap > 0.0 { duration.min(cap) } else { duration };
    let wanted = ((duration * f64::from(rate)) as usize).min(max);
    let mut frames = if total < wanted {
        native_linspace(0, last, wanted)
    } else {
        let per_frame = 1.0 / fps;
        let interval = 1.0 / f64::from(rate);
        let mut frames = Vec::new();
        let mut second = 0.0_f64;
        for frame in 0..total {
            if frame as f64 * per_frame >= second {
                second += interval;
                frames.push(frame);
                if second >= max_seconds as f64 {
                    break;
                }
            }
        }
        frames
    };
    if frames.len() < wanted {
        let (start, end) = match (frames.first(), frames.last()) {
            (Some(&first), Some(&last)) => (first, last),
            _ => (0, last),
        };
        frames = native_linspace(start, end, wanted);
    } else if frames.len() > wanted {
        frames = native_linspace(0, last, wanted);
    }
    let mut unique: Vec<usize> = Vec::new();
    for frame in frames {
        if !unique.contains(&frame) {
            unique.push(frame);
        }
    }
    if unique.len() % 2 == 1 {
        unique.push(*unique.last().unwrap());
    }
    unique
}

fn native_m3(total: usize, fps: f64, rate: f32) -> Vec<usize> {
    let rate = f64::from(rate);
    if total == 0 {
        return Vec::new();
    }
    if !(fps.is_finite() && fps > 0.0 && rate.is_finite() && rate > 0.0) {
        return vec![0];
    }
    let interval = 1.0 / rate;
    let mut indices: Vec<usize> = Vec::new();
    let mut kept = f64::NEG_INFINITY;
    loop {
        let target = match indices.last() {
            None => 0,
            Some(&last) => {
                (((kept + interval - 1e-4) * fps).ceil() as usize).max(last + 1)
            }
        };
        if target >= total {
            break;
        }
        indices.push(target);
        kept = target as f64 / fps;
    }
    indices
}

const TOTALS: [usize; 9] = [0, 1, 2, 3, 29, 98, 100, 257, 493];
const RATES: [f64; 12] = [
    30.0, 25.0, 24.0, 23.976, 29.97, 59.94, 0.5, 1.0, 0.0, -3.0, f64::NAN, f64::INFINITY,
];
const SAMPLES: [f32; 9] = [2.0, 1.0, 0.5, 0.3, 7.25, 0.0, -1.0, f32::NAN, f32::INFINITY];

#[test]
fn uniform_equals_native_arithmetic() {
    for total in TOTALS {
        for fps in RATES {
            for rate in SAMPLES {
                for (min, max) in [(4, 768), (1, 1), (0, 0), (0, 5), (9, 9)] {
                    let plan = VideoSamplingStrategy::Uniform.plan(
                        &source(total, fps),
                        min,
                        max,
                        single(rate),
                    );
                    assert_eq!(plan.indices, native_uniform(total, fps, min, max, rate));
                }
            }
        }
    }
}

#[test]
fn qwen3_vl_equals_native_arithmetic() {
    for total in TOTALS {
        for fps in RATES {
            for rate in SAMPLES {
                for (min, max) in [(4, 768), (1, 1), (0, 0), (0, 5), (9, 9)] {
                    let plan = VideoSamplingStrategy::Qwen3Vl.plan(
                        &source(total, fps),
                        min,
                        max,
                        single(rate),
                    );
                    assert_eq!(plan.indices, native_qwen(total, fps, min, max, rate));
                }
            }
        }
    }
}

#[test]
fn qwen3_vl_count_of_zero_picks_no_frame() {
    let plan = |total, min, max| {
        VideoSamplingStrategy::Qwen3Vl
            .plan(&source(total, 30.0), min, max, single(2.0))
            .indices
    };
    // int(10/30 * 2) = 0, with no minimum to raise it.
    assert!(plan(10, 0, 768).is_empty());
    // A maximum of 0 leaves nothing, whatever the count and the minimum.
    assert!(plan(98, 0, 0).is_empty());
    assert!(plan(98, 4, 0).is_empty());
    // int(15/30 * 2) = 1.
    assert_eq!(plan(15, 0, 768), vec![0]);
    assert_eq!(plan(10, 1, 768), vec![0]);
}

#[test]
fn qwen3_vl_takes_bounds_that_cross() {
    let plan = VideoSamplingStrategy::Qwen3Vl.plan(&source(98, 30.0), 9, 5, single(2.0));
    assert_eq!(plan.indices, native_qwen(98, 30.0, 9, 5, 2.0));
    assert_eq!(plan.indices.len(), 5);
}

#[test]
fn glm_equals_native_arithmetic() {
    for total in TOTALS {
        if total == 0 {
            continue;
        }
        for fps in [30.0, 25.0, 23.976, 29.97, 0.5, 1.0, 10.0] {
            for rate in SAMPLES {
                for duration in [None, Some(2.9), Some(0.0), Some(f64::NAN), Some(16.4)] {
                    for cap in [0.0, 1.5, f64::NAN, f64::INFINITY] {
                        let meta = VideoSourceMeta {
                            total_frames: total,
                            original_fps: double(fps),
                            duration_seconds: duration.map(double),
                        };
                        let strategy = VideoSamplingStrategy::Glm5Next {
                            max_duration: double(cap),
                        };
                        let plan = strategy.plan(&meta, 1, 64, single(rate));
                        assert_eq!(
                            plan.indices,
                            native_glm((total, fps, duration), 64, rate, cap),
                            "{total} {fps} {rate} {duration:?} {cap}"
                        );
                    }
                }
            }
        }
    }
}

#[test]
fn glm_empty_source_yields_no_indices() {
    let strategy = VideoSamplingStrategy::Glm5Next {
        max_duration: double(0.0),
    };
    assert!(strategy.plan(&source(0, 30.0), 1, 64, single(2.0)).indices.is_empty());
}

#[test]
fn minimax_m3_equals_native_arithmetic() {
    for total in TOTALS {
        for fps in RATES {
            for rate in SAMPLES {
                let plan =
                    VideoSamplingStrategy::MiniMaxM3.plan(&source(total, fps), 1, 768, single(rate));
                assert_eq!(plan.indices, native_m3(total, fps, rate), "{total} {fps} {rate}");
            }
        }
    }
}
