use vstd::prelude::*;

verus! {

/// A table of rows of equal width, kept in one vector row after row.
pub struct FlattenArray<T: Copy> {
    width: usize,
    buf: Vec<T>,
}

impl<T: Copy> FlattenArray<T> {
    /// The cells of the table, row after row.
    pub closed spec fn view(&self) -> Seq<T> {
        self.buf@
    }

    /// The number of cells in a row.
    pub closed spec fn spec_width(&self) -> nat {
        self.width as nat
    }

    /// The cell in row `y` and column `x`.
    pub open spec fn at(&self, y: int, x: int) -> T {
        self@[y * self.spec_width() + x]
    }

    /// A table of `height` rows of `width` cells that all hold `value`.
    pub fn new(width: usize, height: usize, value: T) -> (table: Self)
        requires
            width * height <= usize::MAX,
        ensures
            table.spec_width() == width,
            table@ == Seq::new((width * height) as nat, |i: int| value),
    {
        let cells: usize = width * height;
        let mut buf: Vec<T> = Vec::new();
        let mut i: usize = 0;
        while i < cells
            invariant
                i <= cells,
                buf@.len() == i,
                forall|j: int| 0 <= j < i ==> buf@[j] == value,
            decreases cells - i,
        {
            buf.push(value);
            i = i + 1;
        }
        assert(buf@ =~= Seq::new((width * height) as nat, |i: int| value));
        FlattenArray { width, buf }
    }

    /// The table whose rows, `width` wide, lie one after the other in `buf`.
    pub fn from_vec(width: usize, buf: Vec<T>) -> (table: Self)
        ensures
            table.spec_width() == width,
            table@ == buf@,
    {
        FlattenArray { width, buf }
    }

    /// A copy of the cells, row after row.
    pub fn to_vec(&self) -> (cells: Vec<T>)
        ensures
            cells@ == self@,
    {
        let mut cells: Vec<T> = Vec::new();
        let mut i: usize = 0;
        while i < self.buf.len()
            invariant
                i <= self.buf@.len(),
                cells@ == self.buf@.subrange(0, i as int),
            decreases self.buf@.len() - i,
        {
            cells.push(self.buf[i]);
            assert(cells@ =~= self.buf@.subrange(0, i + 1));
            i = i + 1;
        }
        assert(cells@ =~= self.buf@);
        cells
    }

    /// The cells, row after row.
    pub fn into_vec(self) -> (cells: Vec<T>)
        ensures
            cells@ == self@,
    {
        self.buf
    }

    /// The number of cells in a row.
    pub fn width(&self) -> (w: usize)
        ensures
            w == self.spec_width(),
    {
        self.width
    }

    /// The number of cells in the table.
    pub fn len(&self) -> (n: usize)
        ensures
            n == self@.len(),
    {
        self.buf.len()
    }

    /// Where a run of up to `len` cells from column `x` on ends in its row:
    /// at column `x + len`, or where the row ends.
    pub open spec fn run_end(&self, x: int, len: int) -> int {
        if x + len <= self.spec_width() {
            x + len
        } else {
            self.spec_width() as int
        }
    }

    /// Up to `len` cells of row `y` from column `x` on, cut off where the row
    /// ends.
    pub fn values(&self, y: usize, x: usize, len: usize) -> (cells: &[T])
        requires
            x <= self.spec_width(),
            x + len <= usize::MAX,
            y * self.spec_width() + self.run_end(x as int, len as int) <= self@.len(),
        ensures
            cells@ == self@.subrange(
                y * self.spec_width() + x,
                y * self.spec_width() + self.run_end(x as int, len as int),
            ),
    {
        assert(0 <= y * self.width) by (nonlinear_arith);
        let end: usize = if x + len <= self.width {
            x + len
        } else {
            self.width
        };
        assert(y * self.width + end <= self.buf.len() <= usize::MAX);
        let head: usize = y * self.width + x;
        let tail: usize = y * self.width + end;
        vstd::slice::slice_subrange(self.buf.as_slice(), head, tail)
    }

    /// The cell in row `y` and column `x`.
    pub fn get(&self, y: usize, x: usize) -> (cell: T)
        requires
            y * self.spec_width() + x < self@.len(),
        ensures
            cell == self.at(y as int, x as int),
    {
        assert(0 <= y * self.width) by (nonlinear_arith);
        assert(y * self.width + x < self.buf.len() <= usize::MAX);
        self.buf[y * self.width + x]
    }

    /// The place of the cell in row `y` and column `x`.
    pub fn get_ref(&self, y: usize, x: usize) -> (cell: &T)
        requires
            y * self.spec_width() + x < self@.len(),
        ensures
            *cell == self.at(y as int, x as int),
    {
        assert(0 <= y * self.width) by (nonlinear_arith);
        assert(y * self.width + x < self.buf.len() <= usize::MAX);
        &self.buf[y * self.width + x]
    }

    /// Puts `value` into the cell in row `y` and column `x`.
    pub fn set(&mut self, y: usize, x: usize, value: T)
        requires
            y * old(self).spec_width() + x < old(self)@.len(),
        ensures
            final(self).spec_width() == old(self).spec_width(),
            final(self)@ == old(self)@.update(y * old(self).spec_width() + x, value),
    {
        assert(0 <= y * self.width) by (nonlinear_arith);
        assert(y * self.width + x < self.buf.len() <= usize::MAX);
        let at: usize = y * self.width + x;
        self.buf[at] = value;
    }
}

impl<T: Copy> std::ops::Index<(usize, usize)> for FlattenArray<T> {
    type Output = T;

    /// The cell in row `index.0` and column `index.1`.
    fn index(&self, index: (usize, usize)) -> (cell: &T)
        ensures
            *cell == self.at(index.0 as int, index.1 as int),
    {
        self.get_ref(index.0, index.1)
    }
}

impl<T: Copy> vstd::std_specs::core::IndexSpecImpl<(usize, usize)> for FlattenArray<T> {
    open spec fn index_req(&self, index: &(usize, usize)) -> bool {
        index.0 * self.spec_width() + index.1 < self@.len()
    }
}

} // verus!
