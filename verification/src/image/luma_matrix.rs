use vstd::prelude::*;
use crate::image::flatten_array::FlattenArray;
use crate::image::gray_image::CompressedGrayImage;
use crate::image::raster::{lemma_block_sq_bound, lemma_cell_index, Raster};

verus! {

/// The squares of a span sum up piece by piece: the span from column 0 is
/// the span up to column `x` and the span from column `x` on.
pub proof fn lemma_span_sq_split(r: Raster, x: nat, y: int, n: nat)
    ensures
        r.span_sq(0, y, x + n) == r.span_sq(0, y, x) + r.span_sq(x as int, y, n),
    decreases n,
{
    if n > 0 {
        lemma_span_sq_split(r, x, y, (n - 1) as nat);
        assert((x + n - 1) as nat == x + (n - 1) as nat);
    }
}

/// The squares of a block are what the four blocks that reach from the
/// upper left corner of the raster to the corners of the block give: the
/// largest, less the one above and the one to the left, and the smallest
/// again.
pub proof fn lemma_block_sq_by_corners(r: Raster, x: nat, y: nat, cols: nat, rows: nat)
    ensures
        r.block_sq(x as int, y as int, cols, rows) == r.block_sq(0, 0, x + cols, y + rows)
            - r.block_sq(0, 0, x, y + rows) - r.block_sq(0, 0, x + cols, y) + r.block_sq(0, 0, x, y),
    decreases rows,
{
    if rows > 0 {
        lemma_block_sq_by_corners(r, x, y, cols, (rows - 1) as nat);
        lemma_span_sq_split(r, x, y + rows - 1, cols);
        assert((y + rows - 1) as nat == y + (rows - 1) as nat);
    }
}

/// The table of the sums of squares of a shrunk image: for every corner of
/// the grid between its pixels, the squares of the pixels above and to the
/// left of the corner, summed up.
pub struct LumaMatrix {
    width: u32,
    height: u32,
    square_sums: FlattenArray<u64>,
    source: Ghost<Raster>,
}

impl LumaMatrix {
    /// The raster that the table was made from.
    pub closed spec fn source(&self) -> Raster {
        self.source@
    }

    #[verifier::type_invariant]
    pub closed spec fn inv(&self) -> bool {
        let across = self.width + 1;
        &&& self.source@.wf()
        &&& self.source@.width == self.width
        &&& self.source@.height == self.height
        &&& self.square_sums.spec_width() == across
        &&& self.square_sums@.len() == across * (self.height + 1)
        &&& forall|j: int|
            0 <= j < self.square_sums@.len() ==> #[trigger] self.square_sums@[j]
                == self.source@.block_sq(0, 0, (j % across) as nat, (j / across) as nat)
    }

    /// The table of the image.
    pub fn new(image: &CompressedGrayImage) -> (matrix: LumaMatrix)
        ensures
            matrix.source() == image@,
    {
        proof {
            use_type_invariant(image);
            image.lemma_wf();
        }
        let width: u32 = image.width();
        let height: u32 = image.height();
        let ghost r = image@;
        let ghost across = width + 1;
        proof {
            let f = image.spec_factor();
            assert(width < u32::MAX && height < u32::MAX) by (nonlinear_arith)
                requires
                    f >= 2,
                    f * width <= u32::MAX,
                    f * height <= u32::MAX,
            ;
        }
        let mut buf: Vec<u64> = Vec::new();
        let mut x: u32 = 0;
        while x <= width
            invariant
                x <= width + 1,
                width < u32::MAX,
                across == width + 1,
                buf@.len() == x,
                forall|j: int|
                    0 <= j < buf@.len() ==> #[trigger] buf@[j] == r.block_sq(
                        0,
                        0,
                        (j % across) as nat,
                        (j / across) as nat,
                    ),
            decreases width + 1 - x,
        {
            proof {
                lemma_cell_index(across as nat, 1, x as int, 0);
            }
            buf.push(0);
            x = x + 1;
        }
        let mut y: u32 = 0;
        while y < height
            invariant
                y <= height,
                r == image@,
                r.wf(),
                width == r.width,
                height == r.height,
                width < u32::MAX,
                height < u32::MAX,
                across == width + 1,
                buf@.len() == (y + 1) * across,
                forall|j: int|
                    0 <= j < buf@.len() ==> #[trigger] buf@[j] == r.block_sq(
                        0,
                        0,
                        (j % across) as nat,
                        (j / across) as nat,
                    ),
            decreases height - y,
        {
            proof {
                lemma_cell_index(across as nat, (height + 1) as nat, 0, y + 1);
                assert(r.block_sq(0, 0, 0, (y + 1) as nat) == 0) by {
                    lemma_block_sq_bound(r, 0, 0, 0, (y + 1) as nat);
                    assert(0 * (y + 1) == 0);
                }
            }
            buf.push(0);
            let mut x: u32 = 0;
            while x < width
                invariant
                    x <= width,
                    y < height,
                    r == image@,
                    r.wf(),
                    width == r.width,
                    height == r.height,
                    width < u32::MAX,
                    height < u32::MAX,
                    across == width + 1,
                    buf@.len() == (y + 1) * across + x + 1,
                    forall|j: int|
                        0 <= j < buf@.len() ==> #[trigger] buf@[j] == r.block_sq(
                            0,
                            0,
                            (j % across) as nat,
                            (j / across) as nat,
                        ),
                decreases width - x,
            {
                let luma: u64 = image.pixel(x, y) as u64;
                let here: usize = buf.len();
                proof {
                    let tall = (height + 1) as nat;
                    lemma_cell_index(across as nat, tall, x as int, y as int);
                    lemma_cell_index(across as nat, tall, x + 1, y as int);
                    lemma_cell_index(across as nat, tall, x as int, y + 1);
                    lemma_cell_index(across as nat, tall, x + 1, y + 1);
                    assert((y + 1) * across == y * across + across) by (nonlinear_arith);
                    assert(buf@[y * across + x + 1] == r.block_sq(0, 0, (x + 1) as nat, y as nat));
                    assert(buf@[y * across + x] == r.block_sq(0, 0, x as nat, y as nat));
                    assert(buf@[(y + 1) * across + x] == r.block_sq(
                        0,
                        0,
                        x as nat,
                        (y + 1) as nat,
                    ));
                    lemma_block_sq_bound(r, 0, 0, (x + 1) as nat, y as nat);
                    lemma_block_sq_bound(r, 0, 0, x as nat, (y + 1) as nat);
                    lemma_block_sq_bound(r, 0, 0, x as nat, y as nat);
                    lemma_block_sq_bound(r, 0, 0, (x + 1) as nat, (y + 1) as nat);
                    assert((x + 1) * (y + 1) <= width * height) by (nonlinear_arith)
                        requires
                            0 <= x < width,
                            0 <= y < height,
                    ;
                    assert((x + 1) * y <= (x + 1) * (y + 1)) by (nonlinear_arith)
                        requires
                            0 <= x,
                            0 <= y,
                    ;
                    assert(x * (y + 1) <= (x + 1) * (y + 1)) by (nonlinear_arith)
                        requires
                            0 <= x,
                            0 <= y,
                    ;
                    assert(x * y <= (x + 1) * (y + 1)) by (nonlinear_arith)
                        requires
                            0 <= x,
                            0 <= y,
                    ;
                    assert(luma * luma <= 65025) by (nonlinear_arith)
                        requires
                            luma <= 255,
                    ;
                    assert(r.at(x as int, y as int) * r.at(x as int, y as int) == luma * luma);
                }
                let above: u64 = buf[here - (width as usize + 1)];
                let above_left: u64 = buf[here - (width as usize + 1) - 1];
                let left: u64 = buf[here - 1];
                let sum: u64 = above + left + luma * luma - above_left;
                buf.push(sum);
                x = x + 1;
            }
            assert((y + 2) * across == (y + 1) * across + across) by (nonlinear_arith);
            y = y + 1;
        }
        LumaMatrix {
            width,
            height,
            square_sums: FlattenArray::from_vec(width as usize + 1, buf),
            source: Ghost(r),
        }
    }

    /// The sum of the squares of the pixels in the rectangle that reaches
    /// from column `x` to just before column `xx` and from row `y` to just
    /// before row `yy`; the four are given in the order `[y, x, yy, xx]`.
    pub fn square_sum_partial(&self, rect: [u32; 4]) -> (sum: u64)
        requires
            rect@[0] <= rect@[2] <= self.source().height,
            rect@[1] <= rect@[3] <= self.source().width,
        ensures
            sum == self.source().block_sq(
                rect@[1] as int,
                rect@[0] as int,
                (rect@[3] - rect@[1]) as nat,
                (rect@[2] - rect@[0]) as nat,
            ),
    {
        let y: usize = rect[0] as usize;
        let x: usize = rect[1] as usize;
        let yy: usize = rect[2] as usize;
        let xx: usize = rect[3] as usize;
        proof {
            use_type_invariant(self);
            let r = self.source@;
            let across = (self.width + 1) as nat;
            let tall = (self.height + 1) as nat;
            lemma_cell_index(across, tall, x as int, y as int);
            lemma_cell_index(across, tall, xx as int, y as int);
            lemma_cell_index(across, tall, x as int, yy as int);
            lemma_cell_index(across, tall, xx as int, yy as int);
            lemma_block_sq_by_corners(r, x as nat, y as nat, (xx - x) as nat, (yy - y) as nat);
            lemma_block_sq_bound(r, x as int, y as int, (xx - x) as nat, (yy - y) as nat);
            lemma_block_sq_by_corners(r, x as nat, 0, (xx - x) as nat, yy as nat);
            lemma_block_sq_bound(r, x as int, 0, (xx - x) as nat, yy as nat);
            lemma_block_sq_bound(r, 0, 0, xx as nat, yy as nat);
            lemma_block_sq_bound(r, 0, 0, x as nat, y as nat);
            assert(x * y <= self.width * self.height) by (nonlinear_arith)
                requires
                    0 <= x <= self.width,
                    0 <= y <= self.height,
            ;
            assert(xx * yy <= self.width * self.height) by (nonlinear_arith)
                requires
                    0 <= xx <= self.width,
                    0 <= yy <= self.height,
            ;
            assert(self.square_sums.at(yy as int, xx as int) == r.block_sq(0, 0, xx as nat, yy as nat));
            assert(self.square_sums.at(yy as int, x as int) == r.block_sq(0, 0, x as nat, yy as nat));
            assert(self.square_sums.at(y as int, xx as int) == r.block_sq(0, 0, xx as nat, y as nat));
            assert(self.square_sums.at(y as int, x as int) == r.block_sq(0, 0, x as nat, y as nat));
        }
        let whole: u64 = self.square_sums.get(yy, xx);
        let left: u64 = self.square_sums.get(yy, x);
        let above: u64 = self.square_sums.get(y, xx);
        let corner: u64 = self.square_sums.get(y, x);
        (whole - left) + corner - above
    }

    pub fn width(&self) -> (w: u32)
        ensures
            w == self.source().width,
    {
        proof {
            use_type_invariant(self);
        }
        self.width
    }

    pub fn height(&self) -> (h: u32)
        ensures
            h == self.source().height,
    {
        proof {
            use_type_invariant(self);
        }
        self.height
    }
}

} // verus!
