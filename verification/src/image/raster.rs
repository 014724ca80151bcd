use vstd::prelude::*;
use vstd::arithmetic::div_mod::{
    lemma_fundamental_div_mod, lemma_fundamental_div_mod_converse, lemma_div_pos_is_pos,
};

verus! {

/// What a gray image holds: its size in pixels and one byte of luma for each
/// pixel, row by row.
pub struct Raster {
    pub width: nat,
    pub height: nat,
    pub data: Seq<u8>,
}

impl Raster {
    /// The buffer holds exactly the pixels, and there are no more of them
    /// than 32 bits can count.
    pub open spec fn wf(self) -> bool {
        &&& self.data.len() == self.width * self.height
        &&& self.width * self.height <= u32::MAX
    }

    /// The luma in column `x` of row `y`.
    pub open spec fn at(self, x: int, y: int) -> u8 {
        self.data[y * self.width + x]
    }

    /// Whether column `x` of row `y` lies inside the raster.
    pub open spec fn holds(self, x: int, y: int) -> bool {
        0 <= x < self.width && 0 <= y < self.height
    }

    /// The raster of the given size whose pixel in column `x` of row `y` is
    /// `f(x, y)`.
    pub open spec fn from_fn(width: nat, height: nat, f: spec_fn(int, int) -> u8) -> Raster {
        Raster {
            width,
            height,
            data: Seq::new(width * height, |i: int| f(i % (width as int), i / (width as int))),
        }
    }

    /// The sum of the `n` pixels of row `y` that start in column `x`.
    pub open spec fn span_sum(self, x: int, y: int, n: nat) -> int
        decreases n,
    {
        if n == 0 {
            0
        } else {
            self.span_sum(x, y, (n - 1) as nat) + self.at(x + n - 1, y)
        }
    }

    /// The sum of the pixels of the block of `cols` columns and `rows` rows
    /// whose upper left corner is column `x` of row `y`.
    pub open spec fn block_sum(self, x: int, y: int, cols: nat, rows: nat) -> int
        decreases rows,
    {
        if rows == 0 {
            0
        } else {
            self.block_sum(x, y, cols, (rows - 1) as nat) + self.span_sum(x, y + rows - 1, cols)
        }
    }

    /// The sum of the squares of the `n` pixels of row `y` that start in
    /// column `x`.
    pub open spec fn span_sq(self, x: int, y: int, n: nat) -> int
        decreases n,
    {
        if n == 0 {
            0
        } else {
            self.span_sq(x, y, (n - 1) as nat) + self.at(x + n - 1, y) * self.at(x + n - 1, y)
        }
    }

    /// The sum of the squares of the pixels of the block of `cols` columns
    /// and `rows` rows whose upper left corner is column `x` of row `y`.
    pub open spec fn block_sq(self, x: int, y: int, cols: nat, rows: nat) -> int
        decreases rows,
    {
        if rows == 0 {
            0
        } else {
            self.block_sq(x, y, cols, (rows - 1) as nat) + self.span_sq(x, y + rows - 1, cols)
        }
    }
}

/// Column `x` of row `y` of a raster `width` wide is cell `y * width + x`,
/// and no other column and row share that cell.
pub proof fn lemma_cell_index(width: nat, height: nat, x: int, y: int)
    requires
        0 <= x < width,
        0 <= y < height,
    ensures
        0 <= y * width + x < width * height,
        (y * width + x) % (width as int) == x,
        (y * width + x) / (width as int) == y,
{
    assert(y * width + x < width * height) by (nonlinear_arith)
        requires
            0 <= x < width,
            0 <= y < height,
    ;
    assert(0 <= y * width) by (nonlinear_arith)
        requires
            0 <= y,
            0 <= width,
    ;
    assert(y * width == width * y) by (nonlinear_arith);
    lemma_fundamental_div_mod_converse(y * width + x, width as int, y, x);
}

/// Cell `i` of a raster `width` wide is column `i % width` of row `i / width`.
pub proof fn lemma_cell_position(width: nat, height: nat, i: int)
    requires
        0 <= i < width * height,
    ensures
        0 <= i % (width as int) < width,
        0 <= i / (width as int) < height,
        (i / (width as int)) * width + i % (width as int) == i,
{
    assert(width > 0) by (nonlinear_arith)
        requires
            0 <= i < width * height,
    ;
    let w = width as int;
    lemma_fundamental_div_mod(i, w);
    lemma_div_pos_is_pos(i, w);
    assert(i / w < height) by (nonlinear_arith)
        requires
            i == w * (i / w) + i % w,
            0 <= i % w,
            i < w * height,
            w > 0,
    ;
    assert((i / w) * w == w * (i / w)) by (nonlinear_arith);
}

/// A raster made by `from_fn` has the stated size and pixels.
pub proof fn lemma_from_fn(width: nat, height: nat, f: spec_fn(int, int) -> u8)
    ensures
        Raster::from_fn(width, height, f).width == width,
        Raster::from_fn(width, height, f).height == height,
        Raster::from_fn(width, height, f).data.len() == width * height,
        forall|x: int, y: int|
            0 <= x < width && 0 <= y < height ==> #[trigger] Raster::from_fn(width, height, f).at(
                x,
                y,
            ) == f(x, y),
{
    let r = Raster::from_fn(width, height, f);
    assert forall|x: int, y: int| 0 <= x < width && 0 <= y < height implies #[trigger] r.at(x, y)
        == f(x, y) by {
        lemma_cell_index(width, height, x, y);
    }
}

/// Two rasters of the same size with the same pixels are the same raster.
pub proof fn lemma_raster_ext(a: Raster, b: Raster)
    requires
        a.width == b.width,
        a.height == b.height,
        a.data.len() == a.width * a.height,
        b.data.len() == b.width * b.height,
        forall|x: int, y: int| a.holds(x, y) ==> a.at(x, y) == b.at(x, y),
    ensures
        a == b,
{
    assert forall|i: int| 0 <= i < a.data.len() implies a.data[i] == b.data[i] by {
        lemma_cell_position(a.width, a.height, i);
        let x = i % (a.width as int);
        let y = i / (a.width as int);
        assert(a.holds(x, y));
        assert(a.at(x, y) == b.at(x, y));
    }
    assert(a.data =~= b.data);
}

/// A span of pixels that all have the value `v` sums to `n * v`.
pub proof fn lemma_span_sum_constant(r: Raster, x: int, y: int, n: nat, v: u8)
    requires
        forall|cx: int| x <= cx < x + n ==> r.at(cx, y) == v,
    ensures
        r.span_sum(x, y, n) == n * v,
    decreases n,
{
    if n > 0 {
        lemma_span_sum_constant(r, x, y, (n - 1) as nat, v);
        assert(r.at(x + (n - 1), y) == v);
        assert((n - 1) * v + v == n * v) by (nonlinear_arith);
    } else {
        assert(0 * v == 0) by (nonlinear_arith);
    }
}

/// A block of pixels that all have the value `v` sums to `rows * cols * v`.
pub proof fn lemma_block_sum_constant(r: Raster, x: int, y: int, cols: nat, rows: nat, v: u8)
    requires
        forall|cx: int, cy: int| x <= cx < x + cols && y <= cy < y + rows ==> r.at(cx, cy) == v,
    ensures
        r.block_sum(x, y, cols, rows) == rows * cols * v,
    decreases rows,
{
    if rows > 0 {
        lemma_block_sum_constant(r, x, y, cols, (rows - 1) as nat, v);
        lemma_span_sum_constant(r, x, y + rows - 1, cols, v);
        assert((rows - 1) * cols * v + cols * v == rows * cols * v) by (nonlinear_arith);
    } else {
        assert(0 * cols * v == 0) by (nonlinear_arith);
    }
}

/// A span of `n` pixels sums to at most `255 * n`.
pub proof fn lemma_span_sum_bound(r: Raster, x: int, y: int, n: nat)
    ensures
        0 <= r.span_sum(x, y, n) <= 255 * n,
    decreases n,
{
    if n > 0 {
        lemma_span_sum_bound(r, x, y, (n - 1) as nat);
    }
}

/// A block of `cols` by `rows` pixels sums to at most `255 * cols * rows`.
pub proof fn lemma_block_sum_bound(r: Raster, x: int, y: int, cols: nat, rows: nat)
    ensures
        0 <= r.block_sum(x, y, cols, rows) <= 255 * (cols * rows),
    decreases rows,
{
    if rows > 0 {
        lemma_block_sum_bound(r, x, y, cols, (rows - 1) as nat);
        lemma_span_sum_bound(r, x, y + rows - 1, cols);
        assert(255 * (cols * (rows - 1)) + 255 * cols == 255 * (cols * rows))
            by (nonlinear_arith);
    } else {
        assert(cols * 0 == 0) by (nonlinear_arith);
    }
}

/// The squares of a span of `n` pixels sum to at most `65025 * n`.
pub proof fn lemma_span_sq_bound(r: Raster, x: int, y: int, n: nat)
    ensures
        0 <= r.span_sq(x, y, n) <= 65025 * n,
    decreases n,
{
    if n > 0 {
        lemma_span_sq_bound(r, x, y, (n - 1) as nat);
        let v = r.at(x + n - 1, y);
        assert(0 <= v * v <= 65025) by (nonlinear_arith)
            requires
                0 <= v <= 255,
        ;
    }
}

/// The squares of a block of `cols` by `rows` pixels sum to at most
/// `65025 * cols * rows`.
pub proof fn lemma_block_sq_bound(r: Raster, x: int, y: int, cols: nat, rows: nat)
    ensures
        0 <= r.block_sq(x, y, cols, rows) <= 65025 * (cols * rows),
    decreases rows,
{
    if rows > 0 {
        lemma_block_sq_bound(r, x, y, cols, (rows - 1) as nat);
        lemma_span_sq_bound(r, x, y + rows - 1, cols);
        assert(65025 * (cols * (rows - 1)) + 65025 * cols == 65025 * (cols * rows))
            by (nonlinear_arith);
    } else {
        assert(cols * 0 == 0) by (nonlinear_arith);
    }
}

} // verus!
