use vstd::prelude::*;
use wide::u16x8;
use crate::image::flatten_array::FlattenArray;
use crate::image::gray_image::CompressedGrayImage;
use crate::image::lanes::{lanes, pack_lanes};
use crate::image::raster::{lemma_cell_index, Raster};

verus! {

/// The eight pixels of row `y` from column `x` on, as lanes; a lane beyond
/// the right edge of the raster is 0.
pub open spec fn window_lanes(raster: Raster, x: int, y: int) -> Seq<u16> {
    Seq::new(
        8,
        |i: int|
            if x + i < raster.width {
                raster.at(x + i, y) as u16
            } else {
                0u16
            },
    )
}

/// One vector for every pixel of the raster, row by row: the vector of a
/// pixel holds it and the seven pixels to its right.
pub open spec fn redundant_pack(raster: Raster) -> Seq<Seq<u16>> {
    Seq::new(
        raster.width * raster.height,
        |j: int| window_lanes(raster, j % (raster.width as int), j / (raster.width as int)),
    )
}

/// The number of vectors that hold a row of `width` pixels, eight to a
/// vector.
pub open spec fn packed_width(width: nat) -> nat {
    (width + 7) / 8
}

/// One vector for every eight columns of the raster, row by row.
pub open spec fn stride_pack(raster: Raster) -> Seq<Seq<u16>> {
    Seq::new(
        packed_width(raster.width) * raster.height,
        |j: int|
            window_lanes(
                raster,
                8 * (j % (packed_width(raster.width) as int)),
                j / (packed_width(raster.width) as int),
            ),
    )
}

/// The vector that holds the pixel in column `x` of row `y` and the seven
/// pixels to its right.
fn gather(image: &CompressedGrayImage, x: u32, y: u32) -> (v: u16x8)
    requires
        image@.wf(),
        x < image@.width,
        y < image@.height,
    ensures
        lanes(v) == window_lanes(image@, x as int, y as int),
{
    let width: u32 = image.width();
    let mut pixels: [u16; 8] = [0u16; 8];
    let mut i: u32 = 0;
    while i < 8 && i < width - x
        invariant
            i <= 8,
            i <= width - x,
            x < width,
            width == image@.width,
            y < image@.height,
            forall|k: int| 0 <= k < i ==> pixels@[k] == image@.at(x + k, y as int) as u16,
            forall|k: int| i <= k < 8 ==> pixels@[k] == 0u16,
        decreases 8 - i,
    {
        pixels[i as usize] = image.pixel(x + i, y) as u16;
        i = i + 1;
    }
    assert(pixels@ =~= window_lanes(image@, x as int, y as int));
    pack_lanes(pixels)
}

/// A shrunk image laid out for unaligned loads of eight pixels: one vector
/// for every pixel.
pub struct RedundantPackedGrayImage {
    buf: FlattenArray<u16x8>,
}

impl RedundantPackedGrayImage {
    /// The lanes of the vectors, row by row.
    pub closed spec fn view(&self) -> Seq<Seq<u16>> {
        Seq::new(self.buf@.len(), |j: int| lanes(self.buf@[j]))
    }

    /// The number of vectors in a row.
    pub closed spec fn spec_width(&self) -> nat {
        self.buf.spec_width()
    }

    pub fn from_compressed_gray_image(image: &CompressedGrayImage) -> (packed: Self)
        ensures
            packed@ == redundant_pack(image@),
            packed.spec_width() == image@.width,
    {
        proof {
            use_type_invariant(image);
            image.lemma_wf();
        }
        let width: u32 = image.width();
        let height: u32 = image.height();
        let ghost raster = image@;
        let ghost w = width as int;
        let mut buf: Vec<u16x8> = Vec::new();
        let mut y: u32 = 0;
        while y < height
            invariant
                y <= height,
                raster == image@,
                raster.wf(),
                width == raster.width,
                height == raster.height,
                w == width,
                buf@.len() == y * w,
                forall|j: int|
                    0 <= j < buf@.len() ==> lanes(#[trigger] buf@[j]) == window_lanes(
                        raster,
                        j % w,
                        j / w,
                    ),
            decreases height - y,
        {
            let mut x: u32 = 0;
            while x < width
                invariant
                    x <= width,
                    y < height,
                    raster == image@,
                    raster.wf(),
                    width == raster.width,
                    height == raster.height,
                    w == width,
                    buf@.len() == y * w + x,
                    forall|j: int|
                        0 <= j < buf@.len() ==> lanes(#[trigger] buf@[j]) == window_lanes(
                            raster,
                            j % w,
                            j / w,
                        ),
                decreases width - x,
            {
                let v: u16x8 = gather(image, x, y);
                proof {
                    lemma_cell_index(raster.width, raster.height, x as int, y as int);
                }
                buf.push(v);
                x = x + 1;
            }
            assert((y + 1) * w == y * w + w) by (nonlinear_arith);
            y = y + 1;
        }
        let packed = RedundantPackedGrayImage { buf: FlattenArray::from_vec(width as usize, buf) };
        proof {
            assert(height * w == raster.width * raster.height) by (nonlinear_arith)
                requires
                    w == raster.width,
                    height == raster.height,
            ;
            assert(packed@ =~= redundant_pack(raster));
        }
        packed
    }

    /// The vector that holds the pixel in column `x` of row `y` and the
    /// seven pixels to its right.
    pub fn pixels(&self, x: u32, y: u32) -> (v: &u16x8)
        requires
            y * self.spec_width() + x < self@.len(),
        ensures
            lanes(*v) == self@[y * self.spec_width() + x],
    {
        self.buf.get_ref(y as usize, x as usize)
    }
}

/// A shrunk image laid out in steps of eight pixels: one vector for every
/// eight columns, the last of a row filled up with zeros.
pub struct PackedGrayImage {
    buf: FlattenArray<u16x8>,
}

impl PackedGrayImage {
    /// The lanes of the vectors, row by row.
    pub closed spec fn view(&self) -> Seq<Seq<u16>> {
        Seq::new(self.buf@.len(), |j: int| lanes(self.buf@[j]))
    }

    /// The number of vectors in a row.
    pub closed spec fn spec_width(&self) -> nat {
        self.buf.spec_width()
    }

    pub fn from_compressed_gray_image(image: &CompressedGrayImage) -> (packed: Self)
        ensures
            packed@ == stride_pack(image@),
            packed.spec_width() == packed_width(image@.width),
    {
        proof {
            use_type_invariant(image);
            image.lemma_wf();
        }
        let width: u32 = image.width();
        let height: u32 = image.height();
        let mut packed_width: u32 = width / 8;
        if width % 8 != 0 {
            packed_width = packed_width + 1;
        }
        let ghost raster = image@;
        let ghost w = packed_width as int;
        assert(w == self::packed_width(raster.width));
        let mut buf: Vec<u16x8> = Vec::new();
        let mut y: u32 = 0;
        while y < height
            invariant
                y <= height,
                raster == image@,
                raster.wf(),
                width == raster.width,
                height == raster.height,
                w == packed_width,
                w == self::packed_width(raster.width),
                buf@.len() == y * w,
                forall|j: int|
                    0 <= j < buf@.len() ==> lanes(#[trigger] buf@[j]) == window_lanes(
                        raster,
                        8 * (j % w),
                        j / w,
                    ),
            decreases height - y,
        {
            let mut k: u32 = 0;
            while k < packed_width
                invariant
                    k <= packed_width,
                    y < height,
                    raster == image@,
                    raster.wf(),
                    width == raster.width,
                    height == raster.height,
                    w == packed_width,
                    w == self::packed_width(raster.width),
                    buf@.len() == y * w + k,
                    forall|j: int|
                        0 <= j < buf@.len() ==> lanes(#[trigger] buf@[j]) == window_lanes(
                            raster,
                            8 * (j % w),
                            j / w,
                        ),
                decreases packed_width - k,
            {
                let v: u16x8 = gather(image, 8 * k, y);
                proof {
                    lemma_cell_index(packed_width as nat, height as nat, k as int, y as int);
                }
                buf.push(v);
                k = k + 1;
            }
            assert((y + 1) * w == y * w + w) by (nonlinear_arith);
            y = y + 1;
        }
        let packed = PackedGrayImage { buf: FlattenArray::from_vec(packed_width as usize, buf) };
        proof {
            assert(height * w == self::packed_width(raster.width) * raster.height)
                by (nonlinear_arith)
                requires
                    w == self::packed_width(raster.width),
                    height == raster.height,
            ;
            assert(packed@ =~= stride_pack(raster));
        }
        packed
    }

    /// The vector that holds the eight pixels of row `y` among which column
    /// `x` lies.
    pub fn pixels(&self, x: u32, y: u32) -> (v: &u16x8)
        requires
            y * self.spec_width() + x / 8 < self@.len(),
        ensures
            lanes(*v) == self@[y * self.spec_width() + x / 8],
    {
        self.buf.get_ref(y as usize, (x / 8) as usize)
    }
}

} // verus!
