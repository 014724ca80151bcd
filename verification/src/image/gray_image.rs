use vstd::prelude::*;
use vstd::arithmetic::div_mod::{lemma_fundamental_div_mod, lemma_div_pos_is_pos};
use crate::error::Error;
use crate::image::decode::{decode_luma8, decoded_luma8};
use crate::image::flatten_array::FlattenArray;
use crate::image::packed::{
    packed_width,
    redundant_pack,
    stride_pack,
    PackedGrayImage,
    RedundantPackedGrayImage,
};
use crate::image::raster::{
    lemma_cell_index,
    lemma_from_fn,
    lemma_raster_ext,
    lemma_block_sum_bound,
    lemma_block_sum_constant,
    Raster,
};
use crate::image::screenshot::{Frame, Screenshot};

verus! {

/// The raster that a decoded picture of one byte for each pixel is: none
/// where the decoder found no picture, and none where the bytes it gave do
/// not fill the size it gave.
pub open spec fn decoded_raster(picture: Option<(u32, u32, Seq<u8>)>) -> Result<Raster, Error> {
    match picture {
        None => Err(Error::Decode),
        Some(p) => {
            let raster = Raster { width: p.0 as nat, height: p.1 as nat, data: p.2 };
            if raster.wf() {
                Ok(raster)
            } else {
                Err(Error::Dimension)
            }
        },
    }
}

/// The gray raster of a frame: the luma of each of its pixels.
pub open spec fn gray_of(frame: Frame) -> Raster {
    Raster::from_fn(frame.width, frame.height, |x: int, y: int| frame.luma_at(x, y) as u8)
}

/// The fourth power of `r`.
pub open spec fn pow4(r: int) -> int {
    r * r * r * r
}

/// Whether `r` is the integer part of the fourth root of `n`.
pub open spec fn is_fourth_root(n: nat, r: nat) -> bool {
    pow4(r as int) <= n < pow4((r + 1) as int)
}

/// The integer part of the fourth root of `n`.
pub open spec fn fourth_root(n: nat) -> nat {
    choose|r: nat| is_fourth_root(n, r)
}

/// The fourth power grows with its argument.
pub proof fn lemma_pow4_monotonic(a: int, b: int)
    requires
        0 <= a <= b,
    ensures
        pow4(a) <= pow4(b),
{
    assert(a * a <= b * b) by (nonlinear_arith)
        requires
            0 <= a <= b,
    ;
    assert((a * a) * (a * a) <= (b * b) * (b * b)) by (nonlinear_arith)
        requires
            0 <= a * a <= b * b,
    ;
    assert(pow4(a) == (a * a) * (a * a)) by (nonlinear_arith);
    assert(pow4(b) == (b * b) * (b * b)) by (nonlinear_arith);
}

/// At most one number has its fourth power just below or at `n`: the
/// integer part of the fourth root of `n`.
pub proof fn lemma_fourth_root_unique(n: nat, r: nat)
    requires
        is_fourth_root(n, r),
    ensures
        fourth_root(n) == r,
{
    let s = fourth_root(n);
    assert(is_fourth_root(n, s));
    if s < r {
        lemma_pow4_monotonic((s + 1) as int, r as int);
    }
    if r < s {
        lemma_pow4_monotonic((r + 1) as int, s as int);
    }
}

/// The factor by which a raster of the given size is shrunk when none is
/// asked for: the fourth root of a 250th of its area, and at least 2.
pub open spec fn auto_factor(width: nat, height: nat) -> nat {
    let root = fourth_root(width * height / 250);
    if root < 2 {
        2
    } else {
        root
    }
}

/// The factor by which a raster of the given size is shrunk: the one asked
/// for, or else the automatic one, and at least 2 in either case.
pub open spec fn chosen_factor(width: nat, height: nat, factor: Option<u32>) -> nat {
    match factor {
        Some(f) => if f < 2 {
            2
        } else {
            f as nat
        },
        None => auto_factor(width, height),
    }
}

/// The raster shrunk by `factor`: each pixel is the integer mean of a block
/// of `factor` by `factor` pixels; columns and rows that fill no whole block
/// are left out.
pub open spec fn compress(raster: Raster, factor: nat) -> Raster {
    Raster::from_fn(
        raster.width / factor,
        raster.height / factor,
        |x: int, y: int|
            (raster.block_sum(factor * x, factor * y, factor, factor) / ((factor * factor) as int)) as u8,
    )
}

/// A block of the shrunk raster lies inside the raster it was made from.
pub proof fn lemma_block_inside(size: nat, factor: nat, i: int, d: int)
    requires
        factor > 0,
        0 <= i < size / factor,
        0 <= d < factor,
    ensures
        0 <= factor * i,
        0 <= factor * i + d < size,
        factor <= size,
{
    lemma_fundamental_div_mod(size as int, factor as int);
    let q = (size / factor) as int;
    assert(factor * i + factor <= factor * q) by (nonlinear_arith)
        requires
            0 <= i < q,
            factor > 0,
    ;
    assert(0 <= factor * i) by (nonlinear_arith)
        requires
            0 <= i,
            factor > 0,
    ;
    assert(factor <= factor * q) by (nonlinear_arith)
        requires
            1 <= q,
            factor > 0,
    ;
}

/// Shrinking a raster whose pixels all have the value `v` gives a raster
/// whose pixels all have the value `v`.
pub proof fn lemma_compress_constant(raster: Raster, factor: nat, v: u8)
    requires
        raster.wf(),
        factor >= 2,
        forall|x: int, y: int| raster.holds(x, y) ==> raster.at(x, y) == v,
    ensures
        compress(raster, factor).width == raster.width / factor,
        compress(raster, factor).height == raster.height / factor,
        forall|x: int, y: int| #[trigger]
            compress(raster, factor).holds(x, y) ==> compress(raster, factor).at(x, y) == v,
{
    let small = compress(raster, factor);
    let f = factor as int;
    let mean = |x: int, y: int|
        (raster.block_sum(factor * x, factor * y, factor, factor) / ((factor * factor) as int)) as u8;
    lemma_from_fn(raster.width / factor, raster.height / factor, mean);
    assert forall|x: int, y: int| #[trigger] small.holds(x, y) implies small.at(x, y) == v by {
        assert(small.at(x, y) == mean(x, y));
        assert forall|cx: int, cy: int|
            f * x <= cx < f * x + factor && f * y <= cy < f * y + factor implies raster.at(cx, cy)
            == v by {
            lemma_block_inside(raster.width, factor, x, cx - f * x);
            lemma_block_inside(raster.height, factor, y, cy - f * y);
            assert(raster.holds(cx, cy));
        }
        lemma_block_sum_constant(raster, f * x, f * y, factor, factor, v);
        assert((factor * factor * v) / ((factor * factor) as int) == v) by (nonlinear_arith)
            requires
                factor >= 2,
                0 <= v,
        ;
    }
}

/// An image of one byte of luma for each pixel.
pub struct GrayImage {
    width: u32,
    height: u32,
    buf: FlattenArray<u8>,
}

/// The integer part of the fourth root of `n`.
pub fn fourth_root_of(n: u32) -> (root: u32)
    ensures
        root == fourth_root(n as nat),
        root <= 255,
{
    let mut r: u32 = 0;
    loop
        invariant
            r <= 255,
            pow4(r as int) <= n,
        decreases 256 - r,
    {
        let next: u64 = (r + 1) as u64;
        assert(pow4(next as int) <= 0x1_0000_0000) by {
            lemma_pow4_monotonic(next as int, 256);
            assert(pow4(256) == 0x1_0000_0000) by (nonlinear_arith);
        }
        assert(next * next <= 0x1_0000) by (nonlinear_arith)
            requires
                0 <= next <= 256,
        ;
        assert(next * next * next <= 0x100_0000) by (nonlinear_arith)
            requires
                0 <= next <= 256,
                next * next <= 0x1_0000,
        ;
        let fourth: u64 = next * next * next * next;
        assert(fourth == pow4(next as int));
        assert(next == 256 ==> fourth == 0x1_0000_0000) by (nonlinear_arith)
            requires
                fourth == next * next * next * next,
        ;
        if fourth > n as u64 {
            proof {
                lemma_fourth_root_unique(n as nat, r as nat);
            }
            return r;
        }
        r = r + 1;
    }
}

impl GrayImage {
    pub closed spec fn view(&self) -> Raster {
        Raster { width: self.width as nat, height: self.height as nat, data: self.buf@ }
    }

    #[verifier::type_invariant]
    pub closed spec fn inv(&self) -> bool {
        &&& self@.wf()
        &&& self.buf.spec_width() == self.width
    }

    /// Every gray image holds exactly its pixels.
    pub proof fn lemma_wf(&self)
        requires
            self.inv(),
        ensures
            self@.wf(),
    {
    }

    /// The luma of every pixel of the screenshot.
    pub fn from_screenshot(screenshot: &Screenshot) -> (image: Self)
        ensures
            image@ == gray_of(screenshot@),
            image@.width == screenshot@.width,
            image@.height == screenshot@.height,
            image@.wf(),
    {
        let width: u32 = screenshot.width();
        let height: u32 = screenshot.height();
        proof {
            use_type_invariant(screenshot);
            assert(4 * screenshot@.width * screenshot@.height == 4 * (screenshot@.width
                * screenshot@.height)) by (nonlinear_arith);
        }
        let ghost frame = screenshot@;
        let ghost w = width as int;
        let mut buf: Vec<u8> = Vec::new();
        let mut y: u32 = 0;
        while y < height
            invariant
                y <= height,
                frame == screenshot@,
                width == frame.width,
                height == frame.height,
                w == width,
                buf@.len() == y * w,
                forall|j: int| 0 <= j < buf@.len() ==> buf@[j] == frame.luma_at(j % w, j / w) as u8,
            decreases height - y,
        {
            let mut x: u32 = 0;
            while x < width
                invariant
                    x <= width,
                    y < height,
                    frame == screenshot@,
                    width == frame.width,
                    height == frame.height,
                    w == width,
                    buf@.len() == y * w + x,
                    forall|j: int|
                        0 <= j < buf@.len() ==> buf@[j] == frame.luma_at(j % w, j / w) as u8,
                decreases width - x,
            {
                let v: u8 = screenshot.luma(x, y);
                proof {
                    lemma_cell_index(frame.width, frame.height, x as int, y as int);
                }
                buf.push(v);
                x = x + 1;
            }
            assert((y + 1) * w == y * w + w) by (nonlinear_arith);
            y = y + 1;
        }
        assert(height * w == frame.width * frame.height) by (nonlinear_arith)
            requires
                w == frame.width,
                height == frame.height,
        ;
        assert(buf@ =~= gray_of(frame).data);
        GrayImage { width, height, buf: FlattenArray::from_vec(width as usize, buf) }
    }

    /// The image of the given size whose luma lies row by row in `buf`.
    /// The buffer must hold exactly `width * height` bytes.
    pub fn from_raw(width: u32, height: u32, buf: Vec<u8>) -> (result: Result<Self, Error>)
        ensures
            match result {
                Ok(image) => {
                    &&& image@ == (Raster {
                        width: width as nat,
                        height: height as nat,
                        data: buf@,
                    })
                    &&& image@.wf()
                },
                Err(e) => {
                    &&& e == Error::Dimension
                    &&& !(Raster { width: width as nat, height: height as nat, data: buf@ }).wf()
                },
            },
    {
        assert(width * height <= u32::MAX * u32::MAX) by (nonlinear_arith)
            requires
                width <= u32::MAX,
                height <= u32::MAX,
        ;
        let pixels: u64 = (width as u64) * (height as u64);
        if pixels > u32::MAX as u64 {
            return Err(Error::Dimension);
        }
        if buf.len() as u64 != pixels {
            return Err(Error::Dimension);
        }
        Ok(GrayImage { width, height, buf: FlattenArray::from_vec(width as usize, buf) })
    }

    /// The luma of the picture in an image file, given the file's bytes; the
    /// format is guessed from them.
    pub fn from_file_buf(buf: &[u8]) -> (result: Result<Self, Error>)
        ensures
            match decoded_raster(decoded_luma8(buf@)) {
                Ok(raster) => result matches Ok(image) && image@ == raster,
                Err(e) => result matches Err(found) && found == e,
            },
    {
        match decode_luma8(buf) {
            Some((width, height, luma)) => Self::from_raw(width, height, luma),
            None => Err(Error::Decode),
        }
    }

    pub fn width(&self) -> (w: u32)
        ensures
            w == self@.width,
    {
        self.width
    }

    pub fn height(&self) -> (h: u32)
        ensures
            h == self@.height,
    {
        self.height
    }

    /// The luma in column `x` of row `y`.
    pub fn pixel(&self, x: u32, y: u32) -> (v: u8)
        requires
            x < self@.width,
            y < self@.height,
        ensures
            v == self@.at(x as int, y as int),
    {
        proof {
            use_type_invariant(self);
            lemma_cell_index(self@.width, self@.height, x as int, y as int);
        }
        self.buf.get(y as usize, x as usize)
    }

    /// The image shrunk by the factor asked for, or by the automatic one.
    pub fn into_compressed(self, factor: Option<u32>) -> (small: CompressedGrayImage)
        ensures
            small.spec_factor() == chosen_factor(self@.width, self@.height, factor),
            small@ == compress(self@, small.spec_factor()),
            small@.width == self@.width / small.spec_factor(),
            small@.height == self@.height / small.spec_factor(),
            small@.wf(),
    {
        CompressedGrayImage::from_gray_image(&self, factor)
    }
}

/// A gray image shrunk by a whole factor, which it remembers.
pub struct CompressedGrayImage {
    factor: u32,
    width: u32,
    height: u32,
    buf: FlattenArray<u8>,
}

impl CompressedGrayImage {
    pub closed spec fn view(&self) -> Raster {
        Raster { width: self.width as nat, height: self.height as nat, data: self.buf@ }
    }

    /// The factor by which the image was shrunk.
    pub closed spec fn spec_factor(&self) -> nat {
        self.factor as nat
    }

    #[verifier::type_invariant]
    pub closed spec fn inv(&self) -> bool {
        &&& self@.wf()
        &&& self.buf.spec_width() == self.width
        &&& self.factor >= 2
        &&& self.factor * self.width <= u32::MAX
        &&& self.factor * self.height <= u32::MAX
    }

    /// Every shrunk image holds exactly its pixels, its factor is at least
    /// 2, and the image it was made from was no larger than 32 bits can
    /// count.
    pub proof fn lemma_wf(&self)
        requires
            self.inv(),
        ensures
            self@.wf(),
            self.spec_factor() >= 2,
            self.spec_factor() * self@.width <= u32::MAX,
            self.spec_factor() * self@.height <= u32::MAX,
    {
    }

    /// The image shrunk by the factor asked for, or by the automatic one:
    /// each pixel of the result is the integer mean of a block of pixels.
    pub fn from_gray_image(image: &GrayImage, factor: Option<u32>) -> (small: Self)
        ensures
            small.spec_factor() == chosen_factor(image@.width, image@.height, factor),
            small@ == compress(image@, small.spec_factor()),
            small@.width == image@.width / small.spec_factor(),
            small@.height == image@.height / small.spec_factor(),
            small@.wf(),
    {
        proof {
            use_type_invariant(image);
        }
        let factor: u32 = match factor {
            Some(f) => f,
            None => fourth_root_of(image.width * image.height / 250),
        };
        let factor: u32 = if factor < 2 {
            2
        } else {
            factor
        };
        let width: u32 = image.width / factor;
        let height: u32 = image.height / factor;
        let ghost big = image@;
        let ghost f = factor as nat;
        let ghost w = width as int;
        proof {
            lemma_fundamental_div_mod(image.width as int, factor as int);
            lemma_fundamental_div_mod(image.height as int, factor as int);
            lemma_div_pos_is_pos(image.width as int, factor as int);
            lemma_div_pos_is_pos(image.height as int, factor as int);
            assert(width * height <= image.width * image.height) by (nonlinear_arith)
                requires
                    0 <= width <= image.width,
                    0 <= height <= image.height,
            ;
            assert(factor * width == factor * (image.width as int / factor as int));
            assert(factor * height == factor * (image.height as int / factor as int));
        }
        let mut buf: Vec<u8> = Vec::new();
        let mut y: u32 = 0;
        while y < height
            invariant
                y <= height,
                big == image@,
                big.wf(),
                f == factor,
                f >= 2,
                w == width,
                width == big.width / f,
                height == big.height / f,
                buf@.len() == y * w,
                forall|j: int| 0 <= j < buf@.len() ==> buf@[j] == compress(big, f).at(j % w, j / w),
            decreases height - y,
        {
            let mut x: u32 = 0;
            while x < width
                invariant
                    x <= width,
                    y < height,
                    big == image@,
                    big.wf(),
                    f == factor,
                    f >= 2,
                    w == width,
                    width == big.width / f,
                    height == big.height / f,
                    buf@.len() == y * w + x,
                    forall|j: int|
                        0 <= j < buf@.len() ==> buf@[j] == compress(big, f).at(j % w, j / w),
                decreases width - x,
            {
                let v: u8 = Self::block_mean(image, factor, x, y);
                proof {
                    lemma_cell_index(width as nat, height as nat, x as int, y as int);
                    lemma_from_fn(
                        big.width / f,
                        big.height / f,
                        |x: int, y: int|
                            (big.block_sum(f * x, f * y, f, f) / ((f * f) as int)) as u8,
                    );
                    assert(compress(big, f).at(x as int, y as int) == v);
                }
                buf.push(v);
                x = x + 1;
            }
            assert((y + 1) * w == y * w + w) by (nonlinear_arith);
            y = y + 1;
        }
        proof {
            let small = Raster { width: width as nat, height: height as nat, data: buf@ };
            lemma_from_fn(
                big.width / f,
                big.height / f,
                |x: int, y: int| (big.block_sum(f * x, f * y, f, f) / ((f * f) as int)) as u8,
            );
            assert(height * w == width * height) by (nonlinear_arith)
                requires
                    w == width,
            ;
            assert forall|cx: int, cy: int| small.holds(cx, cy) implies small.at(cx, cy)
                == compress(big, f).at(cx, cy) by {
                lemma_cell_index(width as nat, height as nat, cx, cy);
            }
            lemma_raster_ext(small, compress(big, f));
        }
        CompressedGrayImage {
            factor,
            width,
            height,
            buf: FlattenArray::from_vec(width as usize, buf),
        }
    }

    /// The integer mean of the block of `factor` by `factor` pixels that
    /// becomes the pixel in column `x` of row `y` of the shrunk image.
    fn block_mean(image: &GrayImage, factor: u32, x: u32, y: u32) -> (v: u8)
        requires
            image@.wf(),
            factor >= 2,
            x < image@.width / (factor as nat),
            y < image@.height / (factor as nat),
        ensures
            v == image@.block_sum(factor * x, factor * y, factor as nat, factor as nat) / ((factor
                * factor) as int),
    {
        let ghost big = image@;
        let ghost f = factor as nat;
        proof {
            lemma_block_inside(big.width, f, x as int, 0);
            lemma_block_inside(big.height, f, y as int, 0);
            assert(f * f <= big.width * big.height) by (nonlinear_arith)
                requires
                    0 <= f <= big.width,
                    0 <= f <= big.height,
            ;
        }
        let left: u32 = factor * x;
        let top: u32 = factor * y;
        let mut sum: u64 = 0;
        let mut dy: u32 = 0;
        while dy < factor
            invariant
                dy <= factor,
                big == image@,
                big.wf(),
                f == factor,
                f >= 2,
                f * f <= u32::MAX,
                x < big.width / f,
                y < big.height / f,
                left == f * x,
                top == f * y,
                sum == big.block_sum(left as int, top as int, f, dy as nat),
            decreases factor - dy,
        {
            let mut dx: u32 = 0;
            let mut row: u64 = 0;
            proof {
                lemma_block_inside(big.height, f, y as int, dy as int);
                lemma_block_sum_bound(big, left as int, top as int, f, dy as nat);
                assert(f * dy <= f * f) by (nonlinear_arith)
                    requires
                        0 <= dy <= f,
                ;
            }
            while dx < factor
                invariant
                    dx <= factor,
                    dy < factor,
                    big == image@,
                    big.wf(),
                    f == factor,
                    f >= 2,
                    x < big.width / f,
                    y < big.height / f,
                    left == f * x,
                    top == f * y,
                    top + dy < big.height,
                    row == big.span_sum(left as int, top + dy, dx as nat),
                    row <= 255 * dx,
                decreases factor - dx,
            {
                proof {
                    lemma_block_inside(big.width, f, x as int, dx as int);
                }
                let v: u8 = image.pixel(left + dx, top + dy);
                row = row + v as u64;
                dx = dx + 1;
            }
            sum = sum + row;
            dy = dy + 1;
        }
        proof {
            lemma_block_sum_bound(big, left as int, top as int, f, f);
            assert(f * f >= 4) by (nonlinear_arith)
                requires
                    f >= 2,
            ;
            assert((255 * (f * f)) as int / ((f * f) as int) == 255) by (nonlinear_arith)
                requires
                    f >= 2,
            ;
            assert(sum as int / ((f * f) as int) <= 255) by (nonlinear_arith)
                requires
                    0 <= sum <= 255 * (f * f),
                    f * f > 0,
            ;
            assert(factor * factor == f * f);
        }
        let area: u64 = (factor as u64) * (factor as u64);
        (sum / area) as u8
    }

    /// The factor by which the image was shrunk.
    pub fn factor(&self) -> (f: u32)
        ensures
            f == self.spec_factor(),
            f >= 2,
    {
        proof {
            use_type_invariant(self);
        }
        self.factor
    }

    pub fn width(&self) -> (w: u32)
        ensures
            w == self@.width,
    {
        self.width
    }

    pub fn height(&self) -> (h: u32)
        ensures
            h == self@.height,
    {
        self.height
    }

    /// The luma in column `x` of row `y`.
    pub fn pixel(&self, x: u32, y: u32) -> (v: u8)
        requires
            x < self@.width,
            y < self@.height,
        ensures
            v == self@.at(x as int, y as int),
    {
        proof {
            use_type_invariant(self);
            lemma_cell_index(self@.width, self@.height, x as int, y as int);
        }
        self.buf.get(y as usize, x as usize)
    }

    /// The image laid out for unaligned loads of eight pixels.
    pub fn to_redundant_packed(&self) -> (packed: RedundantPackedGrayImage)
        ensures
            packed@ == redundant_pack(self@),
            packed.spec_width() == self@.width,
    {
        RedundantPackedGrayImage::from_compressed_gray_image(self)
    }

    /// The image laid out in steps of eight pixels.
    pub fn to_packed(&self) -> (packed: PackedGrayImage)
        ensures
            packed@ == stride_pack(self@),
            packed.spec_width() == packed_width(self@.width),
    {
        PackedGrayImage::from_compressed_gray_image(self)
    }

    /// A copy of the luma of the image, row by row.
    pub fn to_vec(&self) -> (luma: Vec<u8>)
        ensures
            luma@ == self@.data,
    {
        self.buf.to_vec()
    }
}

} // verus!
