//! Conversion of a grayscale raster into a reduced-resolution ASCII-art
//! rendering, together with a dithered preview raster.
//!
//! The pipeline is: box-filter downsampling to the target resolution
//! ([`resample`]), nearest-brightness glyph quantization with Floyd-Steinberg
//! error diffusion ([`dither`]), and a run-length text encoder for compact
//! transcription ([`rle`]). Opening image files, parsing configuration and
//! writing output are left to the surrounding program; the library works on
//! plain in-memory rasters.

pub mod dither;
pub mod palette;
pub mod pipeline;
pub mod raster;
pub mod resample;
pub mod rle;

pub use palette::find_closest_character;
pub use palette::Palette;
pub use palette::PaletteEntry;
pub use pipeline::convert;
pub use pipeline::AsciiArt;
pub use pipeline::PipelineError;
pub use raster::Raster;
