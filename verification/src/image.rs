use vstd::prelude::*;

verus! {

/// How the bytes of a pixel buffer are laid out: three channels per pixel
/// (red, green, blue in that order) or a single luminance channel.
#[derive(Clone, Copy, PartialEq, Eq, Structural, Debug)]
pub enum ColorModel {
    Rgb,
    Grayscale,
}

/// Bits per channel of the raster. Every transform requires `Eight`.
#[derive(Clone, Copy, PartialEq, Eq, Structural, Debug)]
pub enum BitDepth {
    One,
    Two,
    Four,
    Eight,
    Sixteen,
}

/// Number of bytes each pixel occupies under the given color model.
pub open spec fn channels_per_pixel(c: ColorModel) -> int {
    match c {
        ColorModel::Rgb => 3,
        ColorModel::Grayscale => 1,
    }
}

/// Dimensions and sample layout of a raster image.
#[derive(Clone, Copy, PartialEq, Eq, Structural, Debug)]
pub struct ImageMetadata {
    pub width: u32,
    pub height: u32,
    pub color: ColorModel,
    pub depth: BitDepth,
}

/// A decoded raster: metadata plus the pixel bytes, row-major.
pub struct ImageRecord {
    pub meta: ImageMetadata,
    pub bytes: Vec<u8>,
}

impl ImageRecord {
    /// The byte count matches the dimensions and the color model, so the
    /// metadata and the buffer are never observed in an inconsistent pairing.
    pub open spec fn wf(self) -> bool {
        self.bytes@.len() == self.meta.width * self.meta.height * channels_per_pixel(
            self.meta.color,
        )
    }
}

} // verus!
