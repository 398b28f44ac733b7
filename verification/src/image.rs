//! The decoded image.

use crate::pixel::RGB;
use vstd::prelude::*;

verus! {

/// A decoded Radiance HDR image.
#[derive(Debug)]
pub struct Image {
    /// The width of the image, in pixels.
    pub width: usize,
    /// The height of the image, in pixels.
    pub height: usize,
    /// The decoded image data, row after row from the top, each row from the
    /// left.
    pub data: Vec<RGB>,
}

/// An image as the contracts see it.
#[verifier::ext_equal]
pub struct ImageView {
    /// The width of the image, in pixels.
    pub width: nat,
    /// The height of the image, in pixels.
    pub height: nat,
    /// The pixels, row after row from the top, each row from the left.
    pub pixels: Seq<RGB>,
}

impl View for Image {
    type V = ImageView;

    open spec fn view(&self) -> ImageView {
        ImageView { width: self.width as nat, height: self.height as nat, pixels: self.data@ }
    }
}

impl Image {
    /// The image holds one pixel for each place of its `width` times
    /// `height`.
    pub open spec fn wf(&self) -> bool {
        self.data@.len() == self.width * self.height
    }

    /// The place in `data` of the pixel in column `x` of row `y`.
    pub open spec fn offset_of(&self, x: int, y: int) -> int {
        self.width * y + x
    }

    /// Calculate an offset into the data buffer, given an x and y coordinate.
    pub fn pixel_offset(&self, x: usize, y: usize) -> (offset: usize)
        requires
            self.offset_of(x as int, y as int) <= usize::MAX,
        ensures
            offset == self.offset_of(x as int, y as int),
            self.wf() && x < self.width && y < self.height ==> offset < self.data@.len(),
    {
        proof {
            let (w, h) = (self.width as int, self.height as int);
            let (x, y) = (x as int, y as int);
            assert(0 <= w * y <= w * y + x) by (nonlinear_arith)
                requires
                    0 <= w,
                    0 <= y,
                    0 <= x,
            ;
            assert(x < w && y < h ==> w * y + x < w * h) by (nonlinear_arith)
                requires
                    0 <= x,
                    0 <= y,
            ;
        }
        self.width * y + x
    }

    /// Get a pixel at a specific x and y coordinate.
    pub fn pixel(&self, x: usize, y: usize) -> (pixel: &RGB)
        requires
            self.wf(),
            x < self.width,
            y < self.height,
        ensures
            *pixel == self.data@[self.offset_of(x as int, y as int)],
    {
        proof {
            lemma_offset_in_bounds(self.width as int, self.height as int, x as int, y as int);
            vstd::std_specs::vec::axiom_spec_len(&self.data);
        }
        let offset = self.pixel_offset(x, y);
        &self.data[offset]
    }
}

/// The offset of a place within the image lies within the image's data.
pub proof fn lemma_offset_in_bounds(width: int, height: int, x: int, y: int)
    by (nonlinear_arith)
    requires
        0 <= x < width,
        0 <= y < height,
    ensures
        0 <= width * y + x < width * height,
{
}

/// Two places of an image with the same offset are the same place.
pub proof fn lemma_offsets_differ(width: int, x1: int, y1: int, x2: int, y2: int)
    by (nonlinear_arith)
    requires
        0 <= x1 < width,
        0 <= x2 < width,
        0 <= y1,
        0 <= y2,
        width * y1 + x1 == width * y2 + x2,
    ensures
        x1 == x2,
        y1 == y2,
{
    if y1 < y2 {
        assert(width * y2 >= width * y1 + width);
    } else if y2 < y1 {
        assert(width * y1 >= width * y2 + width);
    }
}

} // verus!
