//! Rectangular images held in memory, row by row.

use vstd::prelude::*;

verus! {

/// What a raster stands for: its extent and its pixels, row by row.
pub struct RasterView<P> {
    pub width: nat,
    pub height: nat,
    pub pixels: Seq<P>,
}

impl<P> RasterView<P> {
    /// The raster holds exactly one pixel for each place, and no more
    /// pixels than a buffer can hold.
    pub open spec fn wf(self) -> bool {
        &&& self.width <= u32::MAX
        &&& self.height <= u32::MAX
        &&& self.pixels.len() == self.width * self.height
        &&& self.pixels.len() <= usize::MAX
    }

    /// The pixel in column `x` of row `y`.
    pub open spec fn pixel(self, x: nat, y: nat) -> P
        recommends
            x < self.width,
            y < self.height,
    {
        self.pixels[(y * self.width + x) as int]
    }
}

/// A place of a raster has its pixel inside the raster's buffer.
pub proof fn lemma_place_in_bounds(x: nat, y: nat, width: nat, height: nat)
    requires
        x < width,
        y < height,
    ensures
        y * width + x < width * height,
{
    assert(y * width + width <= height * width) by (nonlinear_arith)
        requires
            y + 1 <= height,
    ;
    assert(height * width == width * height) by (nonlinear_arith);
}

/// A rectangular image of `width` by `height` pixels.
pub struct Raster<P> {
    width: u32,
    height: u32,
    pixels: Vec<P>,
}

impl<P> View for Raster<P> {
    type V = RasterView<P>;

    closed spec fn view(&self) -> RasterView<P> {
        RasterView {
            width: self.width as nat,
            height: self.height as nat,
            pixels: self.pixels@,
        }
    }
}

impl<P> Raster<P> {
    #[verifier::type_invariant]
    spec fn inv(self) -> bool {
        self.pixels@.len() == self.width * self.height
    }

    /// Makes a raster of a buffer that holds its pixels row by row, or
    /// nothing where the buffer does not hold exactly `width * height`
    /// pixels.
    pub fn from_vec(width: u32, height: u32, pixels: Vec<P>) -> (raster: Option<Self>)
        ensures
            raster.is_some() <==> pixels@.len() == width * height,
            raster.is_some() ==> raster.unwrap()@ == (RasterView {
                width: width as nat,
                height: height as nat,
                pixels: pixels@,
            }) && raster.unwrap()@.wf(),
    {
        assert(width as u64 * height as u64 <= 0xFFFF_FFFF * 0xFFFF_FFFF) by (nonlinear_arith)
            requires
                width <= 0xFFFF_FFFF,
                height <= 0xFFFF_FFFF,
        ;
        let wanted: u64 = (width as u64) * (height as u64);
        if pixels.len() as u64 == wanted {
            Some(Raster { width, height, pixels })
        } else {
            None
        }
    }

    /// The number of columns.
    pub fn width(&self) -> (w: u32)
        ensures
            w == self@.width,
    {
        self.width
    }

    /// The number of rows.
    pub fn height(&self) -> (h: u32)
        ensures
            h == self@.height,
    {
        self.height
    }

    /// The numbers of columns and of rows.
    pub fn dimensions(&self) -> (d: (u32, u32))
        ensures
            d.0 == self@.width,
            d.1 == self@.height,
            self@.wf(),
    {
        proof {
            use_type_invariant(self);
            assert(self.pixels@.len() == self.pixels.len());
        }
        (self.width, self.height)
    }

    /// The pixels, row by row.
    pub fn pixels(&self) -> (pixels: &Vec<P>)
        ensures
            pixels@ == self@.pixels,
            self@.wf(),
    {
        proof {
            use_type_invariant(self);
            assert(self.pixels@.len() == self.pixels.len());
        }
        &self.pixels
    }

    /// The pixels, row by row, leaving the raster behind.
    pub fn into_vec(self) -> (pixels: Vec<P>)
        ensures
            pixels@ == self@.pixels,
            self@.wf(),
    {
        proof {
            use_type_invariant(&self);
            assert(self.pixels@.len() == self.pixels.len());
        }
        self.pixels
    }
}

impl<P: Copy> Raster<P> {
    /// The pixel in column `x` of row `y`, or nothing where the raster has
    /// no such place.
    pub fn get_pixel(&self, x: u32, y: u32) -> (pixel: Option<P>)
        ensures
            pixel == if x < self@.width && y < self@.height {
                Some(self@.pixel(x as nat, y as nat))
            } else {
                None
            },
    {
        proof {
            use_type_invariant(self);
        }
        if x < self.width && y < self.height {
            proof {
                assert(self.pixels@.len() == self.pixels.len());
                lemma_place_in_bounds(x as nat, y as nat, self.width as nat, self.height as nat);
                assert(0 <= y * self.width <= y * self.width + x) by (nonlinear_arith)
                    requires
                        0 <= y,
                        0 <= self.width,
                        0 <= x,
                ;
            }
            let i: usize = (y as usize) * (self.width as usize) + (x as usize);
            Some(self.pixels[i])
        } else {
            None
        }
    }
}

} // verus!
