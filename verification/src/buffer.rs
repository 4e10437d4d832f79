use vstd::prelude::*;

verus! {

/// One RGBA pixel as plain 8-bit channel values.
#[derive(Clone, Copy, Debug, PartialEq, Eq, Structural)]
pub struct Rgba {
    pub r: u8,
    pub g: u8,
    pub b: u8,
    pub a: u8,
}

/// An owned frame buffer: packed RGBA8 bytes in row-major order with
/// explicit dimensions.  A well-formed buffer satisfies
/// `data.len() == width * height * 4`.
#[derive(Clone, Debug)]
pub struct FrameBuffer {
    pub width: u32,
    pub height: u32,
    pub data: Vec<u8>,
}

/// The pixel stored at index `i` (row-major) of a packed RGBA byte sequence.
pub open spec fn px_at(data: Seq<u8>, i: int) -> Rgba {
    Rgba { r: data[4 * i], g: data[4 * i + 1], b: data[4 * i + 2], a: data[4 * i + 3] }
}

/// Channel `c` (0 = red, 1 = green, 2 = blue, 3 = alpha) of a pixel.
pub open spec fn chan_of(p: Rgba, c: int) -> u8 {
    if c == 0 {
        p.r
    } else if c == 1 {
        p.g
    } else if c == 2 {
        p.b
    } else {
        p.a
    }
}

impl FrameBuffer {
    /// Shape invariant: the byte length matches the declared dimensions.
    pub open spec fn wf(self) -> bool {
        self.data@.len() == self.width * self.height * 4
    }

    /// Number of pixels.
    pub open spec fn npix(self) -> int {
        self.width * self.height
    }

    /// Builds a buffer from decoded parts; succeeds exactly when the byte
    /// length matches the declared dimensions.
    pub fn from_raw(width: u32, height: u32, data: Vec<u8>) -> (r: Option<FrameBuffer>)
        ensures
            r is Some <==> data@.len() == width * height * 4,
            r is Some ==> {
                &&& r->Some_0.width == width
                &&& r->Some_0.height == height
                &&& r->Some_0.data@ == data@
                &&& r->Some_0.wf()
            },
    {
        proof {
            vstd::arithmetic::mul::lemma_mul_upper_bound(
                width as int,
                0xffff_ffff,
                height as int,
                0xffff_ffff,
            );
        }
        let need: u128 = width as u128 * height as u128 * 4;
        if data.len() as u128 == need {
            Some(FrameBuffer { width, height, data })
        } else {
            None
        }
    }

    /// Reads the pixel at column `x`, row `y`.
    pub fn get_pixel(&self, x: u32, y: u32) -> (p: Rgba)
        requires
            self.wf(),
            x < self.width,
            y < self.height,
        ensures
            p == px_at(self.data@, y * self.width + x),
    {
        proof {
            lemma_pixel_index_in_range(self.width as int, self.height as int, x as int, y as int);
            assert(self.data@.len() == self.data.len());
            assert(4 * (self.width * self.height) == self.data@.len());
            assert((y as int) * (self.width as int) + (x as int) < self.width * self.height);
        }
        let i: usize = y as usize * self.width as usize + x as usize;
        Rgba {
            r: self.data[4 * i],
            g: self.data[4 * i + 1],
            b: self.data[4 * i + 2],
            a: self.data[4 * i + 3],
        }
    }
}

/// A pixel's row-major index lies below the pixel count.
pub proof fn lemma_pixel_index_in_range(w: int, h: int, x: int, y: int)
    requires
        0 <= x < w,
        0 <= y < h,
    ensures
        0 <= y * w + x < w * h,
{
    assert(0 <= y * w + x < w * h) by (nonlinear_arith)
        requires
            0 <= x < w,
            0 <= y < h,
    ;
}

} // verus!
