use vstd::prelude::*;

verus! {

/// The largest number of pixels a raster may hold. It keeps every sum of
/// squared deviations over a raster, and the sum of two such scores, inside `u64`.
pub const MAX_AREA: u64 = 1099511627776;

/// Why a raster was refused.
#[derive(Clone, Copy, Debug, PartialEq, Eq, Structural)]
pub enum RasterError {
    /// A zero dimension, a pixel buffer whose length is not `width * height * 4`,
    /// or more than `MAX_AREA` pixels.
    InvalidRaster,
}

/// A row-major grid of RGBA8 pixels: four bytes per pixel, no row padding.
#[derive(Debug)]
pub struct Raster {
    pub width: usize,
    pub height: usize,
    pub pixels: Vec<u8>,
}

/// The shape `(width, height, buffer length)` of a raster the engine accepts.
pub open spec fn valid_shape(width: int, height: int, len: int) -> bool {
    &&& width > 0
    &&& height > 0
    &&& width * height <= MAX_AREA
    &&& len == width * height * 4
}

impl Raster {
    pub open spec fn wf(&self) -> bool {
        valid_shape(self.width as int, self.height as int, self.pixels@.len() as int)
    }

    pub open spec fn area(&self) -> int {
        self.width * self.height
    }

    /// Position in `pixels` of channel `k` of the pixel at column `x`, row `y`.
    pub open spec fn index(&self, x: int, y: int, k: int) -> int {
        4 * (y * self.width + x) + k
    }

    /// Channel `k` of the pixel at column `x`, row `y`.
    pub open spec fn px(&self, x: int, y: int, k: int) -> int {
        self.pixels@[self.index(x, y, k)] as int
    }

    /// Checks the shape and takes ownership of the buffer.
    pub fn new(width: usize, height: usize, pixels: Vec<u8>) -> (r: Result<Raster, RasterError>)
        ensures
            r is Ok <==> valid_shape(width as int, height as int, pixels@.len() as int),
            r matches Ok(ras) ==> ras.width == width && ras.height == height && ras.pixels@
                == pixels@,
            r matches Err(e) ==> e == RasterError::InvalidRaster,
    {
        if width == 0 || height == 0 {
            return Err(RasterError::InvalidRaster);
        }
        match width.checked_mul(height) {
            None => {
                let len = pixels.len();
                assert(len < width * height * 4) by (nonlinear_arith)
                    requires
                        width * height > usize::MAX,
                        len <= usize::MAX,
                ;
                Err(RasterError::InvalidRaster)
            },
            Some(area) => {
                if area as u64 > MAX_AREA {
                    return Err(RasterError::InvalidRaster);
                }
                if area > usize::MAX / 4 {
                    let len = pixels.len();
                    assert(len < area * 4) by (nonlinear_arith)
                        requires
                            area > usize::MAX / 4,
                            len <= usize::MAX,
                    ;
                    return Err(RasterError::InvalidRaster);
                }
                if pixels.len() != area * 4 {
                    return Err(RasterError::InvalidRaster);
                }
                Ok(Raster { width, height, pixels })
            },
        }
    }

    /// Checks the invariant `wf` on a raster built field by field.
    pub fn is_wf(&self) -> (b: bool)
        ensures
            b == self.wf(),
    {
        let len = self.pixels.len();
        if self.width == 0 || self.height == 0 {
            return false;
        }
        match self.width.checked_mul(self.height) {
            None => {
                assert(len < self.width * self.height * 4) by (nonlinear_arith)
                    requires
                        self.width * self.height > usize::MAX,
                        len <= usize::MAX,
                ;
                false
            },
            Some(area) => {
                if area as u64 > MAX_AREA {
                    return false;
                }
                if area > usize::MAX / 4 {
                    assert(len < area * 4) by (nonlinear_arith)
                        requires
                            area > usize::MAX / 4,
                            len <= usize::MAX,
                    ;
                    return false;
                }
                len == area * 4
            },
        }
    }

    /// Channel `k` of the pixel at column `x`, row `y`.
    pub fn get(&self, x: usize, y: usize, k: usize) -> (v: u8)
        requires
            self.wf(),
            x < self.width,
            y < self.height,
            k < 4,
        ensures
            v as int == self.px(x as int, y as int, k as int),
    {
        let _ = self.pixels.len();
        proof {
            lemma_index_in_bounds(self, x as int, y as int, k as int);
            assert(y * self.width <= y * self.width + x);
        }
        self.pixels[4 * (y * self.width + x) + k]
    }
}

/// Every pixel position of a well-formed raster indexes its buffer.
pub proof fn lemma_index_in_bounds(r: &Raster, x: int, y: int, k: int)
    requires
        r.wf(),
        0 <= x < r.width,
        0 <= y < r.height,
        0 <= k < 4,
    ensures
        0 <= y * r.width + x < r.area(),
        0 <= r.index(x, y, k) < r.pixels@.len(),
{
    let w = r.width as int;
    let h = r.height as int;
    assert(0 <= y * w + x < w * h) by (nonlinear_arith)
        requires
            0 <= x < w,
            0 <= y < h,
    ;
}

/// Distinct pixel positions of a raster occupy distinct bytes.
pub proof fn lemma_index_injective(r: &Raster, x1: int, y1: int, k1: int, x2: int, y2: int, k2: int)
    requires
        0 <= x1 < r.width,
        0 <= x2 < r.width,
        0 <= y1,
        0 <= y2,
        0 <= k1 < 4,
        0 <= k2 < 4,
        r.index(x1, y1, k1) == r.index(x2, y2, k2),
    ensures
        x1 == x2 && y1 == y2 && k1 == k2,
{
    let w = r.width as int;
    assert(y1 * w + x1 == y2 * w + x2 && k1 == k2);
    if y1 < y2 {
        assert(y1 * w + x1 < y2 * w + x2) by (nonlinear_arith)
            requires
                y1 < y2,
                0 <= x1 < w,
                0 <= x2,
        ;
    } else if y2 < y1 {
        assert(y2 * w + x2 < y1 * w + x1) by (nonlinear_arith)
            requires
                y2 < y1,
                0 <= x2 < w,
                0 <= x1,
        ;
    }
}

} // verus!
