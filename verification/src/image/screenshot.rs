use vstd::prelude::*;
use vstd::std_specs::cmp::PartialEqSpecImpl;
use crate::error::Error;
use crate::image::decode::{decode_png_rgba8, decoded_png_rgba8};

verus! {

/// The luma of a colour: the integer part of the weighted sum of its red,
/// green and blue components, with the weights 0.2126, 0.7152 and 0.0722.
pub open spec fn luma_of(r: u8, g: u8, b: u8) -> int {
    (2126 * r + 7152 * g + 722 * b) / 10000
}

/// The luma of every colour is a value of eight bits.
pub proof fn lemma_luma_range(r: u8, g: u8, b: u8)
    ensures
        0 <= luma_of(r, g, b) <= 255,
{
}

/// One pixel of a screenshot: four bytes in the order blue, green, red, alpha.
pub struct Pixel<'a> {
    bgra: &'a [u8],
}

impl<'a> Pixel<'a> {
    #[verifier::type_invariant]
    spec fn well_formed(self) -> bool {
        self.bgra@.len() == 4
    }

    /// The four bytes of the pixel, blue first.
    pub closed spec fn view(self) -> Seq<u8> {
        self.bgra@
    }

    pub fn new(bgra: &'a [u8]) -> (pixel: Self)
        requires
            bgra@.len() == 4,
        ensures
            pixel@ == bgra@,
    {
        Pixel { bgra }
    }

    pub fn r(&self) -> (v: u8)
        ensures
            self@.len() == 4,
            v == self@[2],
    {
        proof { use_type_invariant(self); }
        self.bgra[2]
    }

    pub fn g(&self) -> (v: u8)
        ensures
            self@.len() == 4,
            v == self@[1],
    {
        proof { use_type_invariant(self); }
        self.bgra[1]
    }

    pub fn b(&self) -> (v: u8)
        ensures
            self@.len() == 4,
            v == self@[0],
    {
        proof { use_type_invariant(self); }
        self.bgra[0]
    }

    pub fn a(&self) -> (v: u8)
        ensures
            self@.len() == 4,
            v == self@[3],
    {
        proof { use_type_invariant(self); }
        self.bgra[3]
    }

    /// The luma of the pixel; alpha plays no part.
    pub fn luma(&self) -> (v: u8)
        ensures
            self@.len() == 4,
            v == luma_of(self@[2], self@[1], self@[0]),
    {
        proof { use_type_invariant(self); }
        let sum: u32 = 2126 * (self.bgra[2] as u32) + 7152 * (self.bgra[1] as u32) + 722 * (
        self.bgra[0] as u32);
        (sum / 10000) as u8
    }
}

impl<'a> PartialEq for Pixel<'a> {
    /// Two pixels are equal where their four bytes are.
    fn eq(&self, other: &Self) -> (equal: bool) {
        proof {
            use_type_invariant(self);
            use_type_invariant(other);
        }
        let equal = self.bgra[0] == other.bgra[0] && self.bgra[1] == other.bgra[1] && self.bgra[2]
            == other.bgra[2] && self.bgra[3] == other.bgra[3];
        proof {
            if equal {
                assert(self@ =~= other@);
            }
        }
        equal
    }
}

impl<'a> PartialEqSpecImpl for Pixel<'a> {
    open spec fn obeys_eq_spec() -> bool {
        true
    }

    open spec fn eq_spec(&self, other: &Self) -> bool {
        self@ == other@
    }
}

/// What a screenshot holds: its size in pixels and its bytes, row by row, four
/// for each pixel in the order blue, green, red, alpha.
pub struct Frame {
    pub width: nat,
    pub height: nat,
    pub bgra: Seq<u8>,
}

impl Frame {
    /// The buffer holds exactly the pixels, and their bytes can be addressed
    /// with 32 bits.
    pub open spec fn wf(self) -> bool {
        &&& self.bgra.len() == 4 * self.width * self.height
        &&& 4 * self.width * self.height <= u32::MAX
    }

    /// Where the four bytes of the pixel in column `x` of row `y` start.
    pub open spec fn offset(self, x: int, y: int) -> int {
        4 * (y * self.width + x)
    }

    /// The luma of the pixel in column `x` of row `y`.
    pub open spec fn luma_at(self, x: int, y: int) -> int {
        let at = self.offset(x, y);
        luma_of(self.bgra[at + 2], self.bgra[at + 1], self.bgra[at])
    }
}

/// A buffer whose red and blue bytes have changed places in every group of
/// four bytes.
pub open spec fn swap_r_and_b(bytes: Seq<u8>) -> Seq<u8> {
    Seq::new(
        bytes.len(),
        |i: int|
            if i % 4 == 0 && i + 2 < bytes.len() {
                bytes[i + 2]
            } else if i % 4 == 2 {
                bytes[i - 2]
            } else {
                bytes[i]
            },
    )
}

/// The `k`-th group of four bytes of `now` is that of `before` with red and
/// blue exchanged.
pub open spec fn group_swapped(now: Seq<u8>, before: Seq<u8>, k: int) -> bool {
    &&& now[4 * k] == before[4 * k + 2]
    &&& now[4 * k + 1] == before[4 * k + 1]
    &&& now[4 * k + 2] == before[4 * k]
    &&& now[4 * k + 3] == before[4 * k + 3]
}

/// Swapping red and blue twice gives the buffer back.
pub proof fn lemma_swap_r_and_b_twice(bytes: Seq<u8>)
    requires
        bytes.len() % 4 == 0,
    ensures
        swap_r_and_b(swap_r_and_b(bytes)) == bytes,
{
    assert(swap_r_and_b(swap_r_and_b(bytes)) =~= bytes);
}

/// The pixel in column `x` of row `y` lies inside the buffer.
pub proof fn lemma_offset_in_bounds(width: nat, height: nat, x: int, y: int)
    requires
        0 <= x < width,
        0 <= y < height,
    ensures
        0 <= y * width,
        0 <= y * width + x < width * height,
        4 * width * height == 4 * (width * height),
{
    assert(4 * width * height == 4 * (width * height)) by (nonlinear_arith);
    assert(y * width + x < width * height) by (nonlinear_arith)
        requires
            0 <= x < width,
            0 <= y < height,
    ;
    assert(0 <= y * width) by (nonlinear_arith)
        requires
            0 <= y,
            0 <= width,
    ;
}

/// The frame that a decoded picture of red, green, blue and alpha is: none
/// where the decoder found no picture, and none where the bytes it gave do
/// not fill the size it gave.
pub open spec fn decoded_frame(picture: Option<(u32, u32, Seq<u8>)>) -> Result<Frame, Error> {
    match picture {
        None => Err(Error::Decode),
        Some(p) => {
            if (Frame { width: p.0 as nat, height: p.1 as nat, bgra: p.2 }).wf() {
                Ok(Frame { width: p.0 as nat, height: p.1 as nat, bgra: swap_r_and_b(p.2) })
            } else {
                Err(Error::Dimension)
            }
        },
    }
}

/// A frame of the screen: `width` times `height` pixels, immutable once built.
#[derive(Debug)]
pub struct Screenshot {
    width: u32,
    height: u32,
    bgra_buf: Vec<u8>,
}

impl Screenshot {
    pub closed spec fn view(&self) -> Frame {
        Frame { width: self.width as nat, height: self.height as nat, bgra: self.bgra_buf@ }
    }

    #[verifier::type_invariant]
    pub open spec fn inv(&self) -> bool {
        self@.wf()
    }

    /// Builds a screenshot from bytes in the order blue, green, red, alpha.
    /// The buffer must hold exactly `width * height` pixels.
    pub fn from_bgra_buf(width: u32, height: u32, bgra_buf: Vec<u8>) -> (result: Result<
        Self,
        Error,
    >)
        ensures
            match result {
                Ok(shot) => {
                    &&& shot@ == (Frame {
                        width: width as nat,
                        height: height as nat,
                        bgra: bgra_buf@,
                    })
                    &&& shot@.wf()
                },
                Err(e) => {
                    &&& e == Error::Dimension
                    &&& !(Frame {
                        width: width as nat,
                        height: height as nat,
                        bgra: bgra_buf@,
                    }).wf()
                },
            },
    {
        assert(width * height <= u32::MAX * u32::MAX) by (nonlinear_arith)
            requires
                width <= u32::MAX,
                height <= u32::MAX,
        ;
        let pixels: u64 = (width as u64) * (height as u64);
        assert(4 * (width as nat) * (height as nat) == 4 * pixels) by (nonlinear_arith)
            requires
                pixels == width * height,
        ;
        if pixels > (u32::MAX / 4) as u64 {
            return Err(Error::Dimension);
        }
        if bgra_buf.len() as u64 != 4 * pixels {
            return Err(Error::Dimension);
        }
        Ok(Screenshot { width, height, bgra_buf })
    }

    /// Builds a screenshot from bytes in the order red, green, blue, alpha.
    pub fn from_raw(width: u32, height: u32, rgba_data: Vec<u8>) -> (result: Result<Self, Error>)
        ensures
            match result {
                Ok(shot) => {
                    &&& shot@ == (Frame {
                        width: width as nat,
                        height: height as nat,
                        bgra: swap_r_and_b(rgba_data@),
                    })
                    &&& shot@.wf()
                },
                Err(e) => {
                    &&& e == Error::Dimension
                    &&& !(Frame {
                        width: width as nat,
                        height: height as nat,
                        bgra: rgba_data@,
                    }).wf()
                },
            },
    {
        let mut buf = rgba_data;
        if buf.len() % 4 != 0 {
            assert(4 * (width as nat) * (height as nat) == 4 * ((width as nat) * (height as nat)))
                by (nonlinear_arith);
            return Err(Error::Dimension);
        }
        Self::swap_channel_r_and_b(&mut buf);
        match Self::from_bgra_buf(width, height, buf) {
            Ok(shot) => Ok(shot),
            Err(e) => Err(e),
        }
    }

    /// The picture in a PNG file, given the file's bytes.
    pub fn from_png_buf(buf: &[u8]) -> (result: Result<Self, Error>)
        ensures
            match decoded_frame(decoded_png_rgba8(buf@)) {
                Ok(frame) => result matches Ok(shot) && shot@ == frame,
                Err(e) => result matches Err(found) && found == e,
            },
    {
        match decode_png_rgba8(buf) {
            Some((width, height, rgba)) => Self::from_raw(width, height, rgba),
            None => Err(Error::Decode),
        }
    }

    /// Exchanges the red and the blue byte of every pixel.
    pub fn swap_channel_r_and_b(buf: &mut Vec<u8>)
        requires
            old(buf)@.len() % 4 == 0,
        ensures
            final(buf)@ == swap_r_and_b(old(buf)@),
    {
        let len: usize = buf.len();
        let mut i: usize = 0;
        while i < len
            invariant
                len == old(buf)@.len(),
                len % 4 == 0,
                i % 4 == 0,
                i <= len,
                buf@.len() == len,
                forall|k: int| 0 <= k < i / 4 ==> group_swapped(buf@, old(buf)@, k),
                forall|j: int| i <= j < len ==> buf@[j] == old(buf)@[j],
            decreases len - i,
        {
            let ghost before = buf@;
            let blue: u8 = buf[i];
            let red: u8 = buf[i + 2];
            buf[i] = red;
            buf[i + 2] = blue;
            proof {
                assert forall|k: int| 0 <= k < (i + 4) / 4 implies group_swapped(
                    buf@,
                    old(buf)@,
                    k,
                ) by {
                    if k < i / 4 {
                        assert(group_swapped(before, old(buf)@, k));
                    }
                }
            }
            i = i + 4;
        }
        assert forall|j: int| 0 <= j < len implies buf@[j] == swap_r_and_b(old(buf)@)[j] by {
            assert(group_swapped(buf@, old(buf)@, j / 4));
        }
        assert(buf@ =~= swap_r_and_b(old(buf)@));
    }

    pub fn width(&self) -> (w: u32)
        ensures
            w == self@.width,
    {
        self.width
    }

    pub fn height(&self) -> (h: u32)
        ensures
            h == self@.height,
    {
        self.height
    }

    /// The pixel in column `x` of row `y`.
    pub fn pixel(&self, x: u32, y: u32) -> (pixel: Pixel<'_>)
        requires
            x < self@.width,
            y < self@.height,
        ensures
            0 <= self@.offset(x as int, y as int),
            self@.offset(x as int, y as int) + 4 <= self@.bgra.len(),
            pixel@ == self@.bgra.subrange(self@.offset(x as int, y as int), self@.offset(
                x as int,
                y as int,
            ) + 4),
    {
        proof {
            use_type_invariant(self);
            lemma_offset_in_bounds(self@.width, self@.height, x as int, y as int);
        }
        let head: usize = ((y * self.width + x) * 4) as usize;
        Pixel::new(vstd::slice::slice_subrange(self.bgra_buf.as_slice(), head, head + 4))
    }

    /// The luma of the pixel in column `x` of row `y`.
    pub fn luma(&self, x: u32, y: u32) -> (v: u8)
        requires
            x < self@.width,
            y < self@.height,
        ensures
            v == self@.luma_at(x as int, y as int),
    {
        self.pixel(x, y).luma()
    }

    /// The luma of every pixel is a value of eight bits, so a gray raster
    /// can hold it.
    pub proof fn lemma_luma_at_range(self, x: int, y: int)
        ensures
            0 <= self@.luma_at(x, y) <= 255,
    {
        let at = self@.offset(x, y);
        lemma_luma_range(self@.bgra[at + 2], self@.bgra[at + 1], self@.bgra[at]);
    }

    /// The bytes of the screenshot in the order red, green, blue, alpha.
    pub fn to_rgba_buf(&self) -> (buf: Vec<u8>)
        ensures
            buf@ == swap_r_and_b(self@.bgra),
    {
        proof {
            use_type_invariant(self);
        }
        let mut buf = self.bgra_buf.clone();
        assert(4 * self@.width * self@.height == 4 * (self@.width * self@.height))
            by (nonlinear_arith);
        Self::swap_channel_r_and_b(&mut buf);
        buf
    }
}

} // verus!
