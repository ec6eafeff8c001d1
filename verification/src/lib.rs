//! Packed tile and palette formats of palette-based handheld graphics
//! hardware: tile reordering, bit packing of indices and colours, and the
//! mapping between palette indices and grayscale images.

pub mod sample;
pub mod pixel;
pub mod raster;
pub mod tiles;
pub mod palette;
pub mod formats;
pub mod conversion;
