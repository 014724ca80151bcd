use vstd::prelude::*;
use wide::u16x8;
use crate::error::Error;
use crate::image::decode::decoded_luma8;
use crate::image::gray_image::{
    auto_factor,
    compress,
    decoded_raster,
    CompressedGrayImage,
    GrayImage,
};
use crate::image::lanes::lanes;
use crate::image::packed::{packed_width, stride_pack, window_lanes, PackedGrayImage};
use crate::image::raster::{lemma_block_sq_bound, lemma_cell_index, lemma_span_sq_bound, Raster};

verus! {

/// The pattern that is made of a gray raster: the raster shrunk by its
/// automatic factor.
pub open spec fn pattern_of(raster: Raster) -> Raster {
    compress(raster, auto_factor(raster.width, raster.height))
}

/// A reference image to look for, made ready for the search: shrunk, laid
/// out in steps of eight pixels, and with the sum of its squares.
pub struct Pattern {
    factor: u32,
    image: CompressedGrayImage,
    packed_image: PackedGrayImage,
    square_sum: u64,
}

impl Pattern {
    /// The shrunk raster of the pattern.
    pub closed spec fn view(&self) -> Raster {
        self.image@
    }

    /// The factor by which the pattern was shrunk.
    pub closed spec fn spec_factor(&self) -> nat {
        self.factor as nat
    }

    #[verifier::type_invariant]
    pub closed spec fn inv(&self) -> bool {
        &&& self.image.inv()
        &&& self.factor == self.image.spec_factor()
        &&& self.packed_image@ == stride_pack(self.image@)
        &&& self.packed_image.spec_width() == packed_width(self.image@.width)
        &&& self.square_sum == self.image@.block_sq(0, 0, self.image@.width, self.image@.height)
    }

    /// Every pattern holds exactly its pixels, its factor is at least 2, and
    /// the image it was made from was no larger than 32 bits can count.
    pub proof fn lemma_wf(&self)
        requires
            self.inv(),
        ensures
            self@.wf(),
            self.spec_factor() >= 2,
            self.spec_factor() * self@.width <= u32::MAX,
            self.spec_factor() * self@.height <= u32::MAX,
    {
        self.image.lemma_wf();
    }

    /// The pattern in an image file, given the file's bytes; the format is
    /// guessed from them.
    pub fn from_file_buf(buf: &[u8]) -> (result: Result<Self, Error>)
        ensures
            match decoded_raster(decoded_luma8(buf@)) {
                Ok(raster) => result matches Ok(pattern) && pattern@ == pattern_of(raster)
                    && pattern.spec_factor() == auto_factor(raster.width, raster.height),
                Err(e) => result matches Err(found) && found == e,
            },
    {
        match GrayImage::from_file_buf(buf) {
            Ok(image) => Ok(Self::from_gray_image(image)),
            Err(e) => Err(e),
        }
    }

    /// The pattern made of a gray image.
    pub fn from_gray_image(image: GrayImage) -> (pattern: Self)
        ensures
            pattern@ == pattern_of(image@),
            pattern.spec_factor() == auto_factor(image@.width, image@.height),
    {
        let image = image.into_compressed(None);
        let factor: u32 = image.factor();
        let packed_image = image.to_packed();
        let square_sum: u64 = Self::sum_of_squares(&image);
        proof {
            use_type_invariant(&image);
        }
        Pattern { factor, image, packed_image, square_sum }
    }

    /// The sum of the squares of all pixels of the image.
    fn sum_of_squares(image: &CompressedGrayImage) -> (sum: u64)
        requires
            image@.wf(),
        ensures
            sum == image@.block_sq(0, 0, image@.width, image@.height),
    {
        let width: u32 = image.width();
        let height: u32 = image.height();
        let ghost r = image@;
        let mut sum: u64 = 0;
        let mut y: u32 = 0;
        while y < height
            invariant
                y <= height,
                r == image@,
                r.wf(),
                width == r.width,
                height == r.height,
                sum == r.block_sq(0, 0, r.width, y as nat),
            decreases height - y,
        {
            let mut row: u64 = 0;
            let mut x: u32 = 0;
            while x < width
                invariant
                    x <= width,
                    y < height,
                    r == image@,
                    r.wf(),
                    width == r.width,
                    height == r.height,
                    row == r.span_sq(0, y as int, x as nat),
                decreases width - x,
            {
                let v: u64 = image.pixel(x, y) as u64;
                proof {
                    lemma_span_sq_bound(r, 0, y as int, x as nat);
                    assert(v * v <= 65025) by (nonlinear_arith)
                        requires
                            v <= 255,
                    ;
                }
                row = row + v * v;
                x = x + 1;
            }
            proof {
                lemma_block_sq_bound(r, 0, 0, r.width, y as nat);
                lemma_span_sq_bound(r, 0, y as int, r.width);
                assert(r.width * y <= r.width * r.height) by (nonlinear_arith)
                    requires
                        0 <= y < r.height,
                        0 <= r.width,
                ;
            }
            sum = sum + row;
            y = y + 1;
        }
        sum
    }

    /// The factor by which the pattern was shrunk.
    pub fn factor(&self) -> (f: u32)
        ensures
            f == self.spec_factor(),
            f >= 2,
    {
        proof {
            use_type_invariant(self);
            self.image.lemma_wf();
        }
        self.factor
    }

    pub fn width(&self) -> (w: u32)
        ensures
            w == self@.width,
    {
        self.image.width()
    }

    pub fn height(&self) -> (h: u32)
        ensures
            h == self@.height,
    {
        self.image.height()
    }

    /// The sum of the squares of all pixels of the pattern.
    pub fn square_sum(&self) -> (sum: u64)
        ensures
            sum == self@.block_sq(0, 0, self@.width, self@.height),
    {
        proof {
            use_type_invariant(self);
        }
        self.square_sum
    }

    /// The luma in column `x` of row `y`.
    pub fn pixel(&self, x: u32, y: u32) -> (v: u8)
        requires
            x < self@.width,
            y < self@.height,
        ensures
            v == self@.at(x as int, y as int),
    {
        self.image.pixel(x, y)
    }

    /// A copy of the luma of the shrunk pattern, row by row.
    pub fn to_vec(&self) -> (luma: Vec<u8>)
        ensures
            luma@ == self@.data,
    {
        self.image.to_vec()
    }

    /// The vector that holds the eight pixels of row `y` among which column
    /// `x` lies: those from the last multiple of 8 up to `x` on.
    pub fn packed_pixels(&self, x: u32, y: u32) -> (v: &u16x8)
        requires
            x < self@.width,
            y < self@.height,
        ensures
            lanes(*v) == window_lanes(self@, 8 * (x as int / 8), y as int),
    {
        proof {
            use_type_invariant(self);
            self.image.lemma_wf();
            let across = packed_width(self@.width);
            lemma_cell_index(across, self@.height, x as int / 8, y as int);
        }
        self.packed_image.pixels(x, y)
    }
}

} // verus!
