pub mod audio_format;
pub mod hops;
pub mod resampler;
pub mod slicer;

pub use audio_format::AudioFormat;
pub use resampler::Resampler;
pub use slicer::{AudioSlicer, SliceConfig};
