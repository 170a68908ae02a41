//! How a video is fetched.
use crate::float::binary32::Binary32;
use crate::float::order;
use crate::float::value;
use crate::float::value::FloatValue;
use crate::video_sampling::VideoSamplingStrategy;
use vstd::arithmetic::power2::*;
use vstd::prelude::*;

verus! {

/// What decoding a video takes.
#[derive(Debug, Clone, Copy, PartialEq)]
pub struct VideoFetchConfig {
    pub min_frames: usize,
    pub max_frames: usize,
    pub sample_fps: Binary32,
    pub strategy: VideoSamplingStrategy,
    /// The longest side that a decoded frame may have, where it is limited.
    pub max_long_side_pixel: Option<u32>,
}

/// The bit pattern of two in single precision.
pub const TWO_BITS: u32 = 0x4000_0000;

/// The bit pattern of one in single precision.
pub const ONE_BITS: u32 = 0x3F80_0000;

impl VideoFetchConfig {
    pub open spec fn spec_default() -> VideoFetchConfig {
        VideoFetchConfig {
            min_frames: 4,
            max_frames: 768,
            sample_fps: Binary32 { bits: TWO_BITS },
            strategy: VideoSamplingStrategy::Uniform,
            max_long_side_pixel: None,
        }
    }
}

impl Default for VideoFetchConfig {
    fn default() -> (r: VideoFetchConfig)
        ensures
            r == VideoFetchConfig::spec_default(),
    {
        VideoFetchConfig {
            min_frames: 4,
            max_frames: 768,
            sample_fps: Binary32 { bits: TWO_BITS },
            strategy: VideoSamplingStrategy::Uniform,
            max_long_side_pixel: None,
        }
    }
}

/// Law: the default rates are two and one frame a second.
pub proof fn law_default_rates_are_two_and_one()
    ensures
        (Binary32 { bits: TWO_BITS })@ == FloatValue::of(2),
        (Binary32 { bits: ONE_BITS })@ == FloatValue::of(1),
{
    lemma2_to64();
    order::lemma_powers();
    order::lemma_of_exact(1);
    order::lemma_of_exact(2);
    lemma_pow2_adds(23, 1051);
    lemma_pow2_adds(23, 1052);
    lemma_pow2_unfold(1075);
    assert(1 * value::one() == value::one());
    assert((TWO_BITS / 0x80_0000) % 256 == 128 && TWO_BITS % 0x80_0000 == 0);
    assert((ONE_BITS / 0x80_0000) % 256 == 127 && ONE_BITS % 0x80_0000 == 0);
}

} // verus!
