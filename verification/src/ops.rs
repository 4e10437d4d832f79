use vstd::prelude::*;

verus! {

/// Resampling kernel used by the resize operation.
#[derive(Clone, Copy, Debug, PartialEq, Eq, Structural)]
pub enum ScaleFilter {
    Nearest,
    Bilinear,
    CatmullRom,
    Gaussian,
    Lanczos3,
    Hamming,
}

/// One parameterized image transform.  The first eight variants act on each
/// pixel independently and can be fused into a single pass over the buffer;
/// the last three read neighbouring pixels or change the buffer's shape and
/// run one at a time through the whole-image executor.
#[derive(Clone, Copy, Debug)]
pub enum ImageOperation {
    /// Adds `delta` to each colour channel, saturating at 0 and 255.
    Brightness(i32),
    /// Spreads or flattens each channel around the 128 midpoint by a factor
    /// of `(100 + p) / (100 - p)` for a percentage `p` clamped to [-100, 100].
    Contrast(i32),
    /// Scales each channel by `(100 + a) / 100` for an amount `a` clamped to
    /// [-100, 100]: positive brightens toward white, negative darkens.
    Exposure(i32),
    /// Linearly remaps the intensity window `[low, high]` to `[0, 255]`;
    /// `low >= high` is a no-op.
    Equalize((u8, u8)),
    /// Quantizes each channel into `levels` evenly spaced buckets
    /// (clamped to [1, 256]); 1 collapses to a single value, 256 is identity.
    Posterize(u16),
    /// Blends each channel toward the pixel's luminance by `percent`
    /// (clamped to 100): 0 leaves the pixel untouched, 100 makes it grey.
    Desaturate(u8),
    /// Shifts hue (degrees, wrapping), saturation and value (clamping) after
    /// an integer RGB-to-HSV conversion, then converts back.
    HSV((i32, i32, i32)),
    /// Adds a position-seeded pseudo-random perturbation bounded by `amt` to
    /// each colour channel; with `mono` the same value goes to R, G and B.
    Noise { amt: u8, mono: bool },
    /// Offsets the red and blue channels horizontally in opposite directions
    /// by `shift` pixels, clamping samples to the row's edge.
    ChromaticAberration(u8),
    /// Resamples the buffer to the target dimensions with the given filter,
    /// optionally fitting inside them while preserving the aspect ratio.
    Resize { dimensions: (u32, u32), aspect: bool, filter: ScaleFilter },
    /// Blurs with a separable box kernel of radius `sigma`; 0 is a no-op.
    Blur(u8),
}

/// True of the operations that act on one pixel at a time and may be fused.
pub open spec fn is_per_pixel(op: ImageOperation) -> bool {
    match op {
        ImageOperation::Brightness(_) => true,
        ImageOperation::Contrast(_) => true,
        ImageOperation::Exposure(_) => true,
        ImageOperation::Equalize(_) => true,
        ImageOperation::Posterize(_) => true,
        ImageOperation::Desaturate(_) => true,
        ImageOperation::HSV(_) => true,
        ImageOperation::Noise { .. } => true,
        ImageOperation::ChromaticAberration(_) => false,
        ImageOperation::Resize { .. } => false,
        ImageOperation::Blur(_) => false,
    }
}

impl ImageOperation {
    /// Executable test matching `is_per_pixel`.
    pub fn per_pixel(&self) -> (r: bool)
        ensures
            r == is_per_pixel(*self),
    {
        match self {
            ImageOperation::Brightness(_) => true,
            ImageOperation::Contrast(_) => true,
            ImageOperation::Exposure(_) => true,
            ImageOperation::Equalize(_) => true,
            ImageOperation::Posterize(_) => true,
            ImageOperation::Desaturate(_) => true,
            ImageOperation::HSV(_) => true,
            ImageOperation::Noise { .. } => true,
            ImageOperation::ChromaticAberration(_) => false,
            ImageOperation::Resize { .. } => false,
            ImageOperation::Blur(_) => false,
        }
    }
}

} // verus!
