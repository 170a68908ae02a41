pub mod decimal;
pub mod encoder_inputs;
pub mod float;
pub mod json;
pub mod media;
pub mod registry;
pub mod text;
pub mod types;
pub mod video_sampling;
pub mod vision;
