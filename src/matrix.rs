use vstd::prelude::*;

use vstd::arithmetic::div_mod::{lemma_fundamental_div_mod, lemma_fundamental_div_mod_converse};

verus! {

/// The mathematical model of a `Matrix`: its dimensions and its cells, row-major.
pub struct Grid<T> {
    pub width: nat,
    pub height: nat,
    pub cells: Seq<T>,
}

impl<T> Grid<T> {
    /// The cell count matches the dimensions.
    pub open spec fn wf(self) -> bool {
        self.cells.len() == self.width * self.height
    }

    pub open spec fn in_bounds(self, x: int, y: int) -> bool {
        0 <= x < self.width && 0 <= y < self.height
    }

    /// The cell in column `x` of row `y`.
    pub open spec fn at(self, x: int, y: int) -> T {
        self.cells[y * self.width + x]
    }
}

/// A dense, row-major, fixed-size two-dimensional container.
pub struct Matrix<T> {
    data: Vec<T>,
    w: usize,
    h: usize,
}

impl<T> View for Matrix<T> {
    type V = Grid<T>;

    closed spec fn view(&self) -> Grid<T> {
        Grid { width: self.w as nat, height: self.h as nat, cells: self.data@ }
    }
}

pub proof fn lemma_index_in_range(w: int, h: int, x: int, y: int)
    requires
        0 <= x < w,
        0 <= y < h,
    ensures
        0 <= y * w + x < w * h,
{
    assert(y * w + x < w * h) by (nonlinear_arith)
        requires
            0 <= x < w,
            0 <= y < h,
    ;
    assert(0 <= y * w) by (nonlinear_arith)
        requires
            0 <= w,
            0 <= y,
    ;
}

impl<T: Copy> Matrix<T> {
    /// A `width` by `height` matrix with every cell set to `fill`.
    pub fn new(width: usize, height: usize, fill: T) -> (r: Matrix<T>)
        requires
            width * height <= usize::MAX,
        ensures
            r@.wf(),
            r@.width == width,
            r@.height == height,
            forall|x: int, y: int| r@.in_bounds(x, y) ==> r@.at(x, y) == fill,
    {
        let n: usize = width * height;
        let mut data: Vec<T> = Vec::new();
        let mut i: usize = 0;
        while i < n
            invariant
                i <= n,
                data@.len() == i,
                forall|k: int| 0 <= k < i ==> data@[k] == fill,
            decreases n - i,
        {
            data.push(fill);
            i = i + 1;
        }
        let r = Matrix { data, w: width, h: height };
        assert forall|x: int, y: int| r@.in_bounds(x, y) implies r@.at(x, y) == fill by {
            lemma_index_in_range(width as int, height as int, x, y);
        }
        r
    }

    /// A matrix of the given shape over the row-major cells `data`.
    pub fn from_cells(width: usize, height: usize, data: Vec<T>) -> (r: Matrix<T>)
        requires
            data@.len() == width * height,
        ensures
            r@ == (Grid { width: width as nat, height: height as nat, cells: data@ }),
    {
        Matrix { data, w: width, h: height }
    }

    /// The cell in column `x` of row `y`.
    pub fn at(&self, x: usize, y: usize) -> (r: T)
        requires
            self@.wf(),
            self@.in_bounds(x as int, y as int),
        ensures
            r == self@.at(x as int, y as int),
    {
        let _n = self.data.len();
        proof {
            lemma_index_in_range(self.w as int, self.h as int, x as int, y as int);
        }
        self.data[y * self.w + x]
    }

    /// Overwrites the cell in column `x` of row `y`.
    pub fn set(&mut self, x: usize, y: usize, c: T)
        requires
            old(self)@.wf(),
            old(self)@.in_bounds(x as int, y as int),
        ensures
            final(self)@.wf(),
            final(self)@.width == old(self)@.width,
            final(self)@.height == old(self)@.height,
            final(self)@.cells == old(self)@.cells.update(
                y * old(self)@.width + x,
                c,
            ),
            final(self)@.at(x as int, y as int) == c,
            forall|i: int, j: int|
                final(self)@.in_bounds(i, j) && (i != x || j != y) ==> final(self)@.at(i, j)
                    == old(self)@.at(i, j),
    {
        let _n = self.data.len();
        proof {
            lemma_index_in_range(self.w as int, self.h as int, x as int, y as int);
        }
        let i = y * self.w + x;
        self.data.set(i, c);
        proof {
            assert forall|a: int, b: int|
                self@.in_bounds(a, b) && (a != x || b != y) implies self@.at(a, b) == old(
                self,
            )@.at(a, b) by {
                lemma_index_in_range(self.w as int, self.h as int, a, b);
                lemma_index_distinct(self.w as int, a, b, x as int, y as int);
            }
        }
    }

    pub fn width(&self) -> (r: usize)
        ensures
            r == self@.width,
    {
        self.w
    }

    pub fn height(&self) -> (r: usize)
        ensures
            r == self@.height,
    {
        self.h
    }

    /// A copy of this matrix.
    pub fn duplicate(&self) -> (r: Matrix<T>)
        ensures
            r@ == self@,
    {
        let n = self.data.len();
        let mut data: Vec<T> = Vec::new();
        let mut i: usize = 0;
        while i < n
            invariant
                n == self.data@.len(),
                i <= n,
                data@ == self.data@.subrange(0, i as int),
            decreases n - i,
        {
            data.push(self.data[i]);
            i = i + 1;
            assert(data@ =~= self.data@.subrange(0, i as int));
        }
        assert(data@ =~= self.data@);
        Matrix { data, w: self.w, h: self.h }
    }

    /// The row-major cells.
    pub fn cells(&self) -> (r: &Vec<T>)
        ensures
            r@ == self@.cells,
    {
        &self.data
    }
}

/// The row-major index `y * w + x` splits back into column `x` and row `y`.
pub proof fn lemma_index_split(w: int, x: int, y: int)
    requires
        0 <= x < w,
    ensures
        (y * w + x) % w == x,
        (y * w + x) / w == y,
{
    lemma_fundamental_div_mod_converse(y * w + x, w, y, x);
}

/// Two well-formed grids of one shape that agree on every cell are equal.
pub proof fn lemma_grid_ext<T>(a: Grid<T>, b: Grid<T>)
    requires
        a.wf(),
        b.wf(),
        a.width == b.width,
        a.height == b.height,
        forall|x: int, y: int| a.in_bounds(x, y) ==> #[trigger] a.at(x, y) == b.at(x, y),
    ensures
        a == b,
{
    let w = a.width as int;
    let h = a.height as int;
    assert forall|i: int| 0 <= i < a.cells.len() implies a.cells[i] == b.cells[i] by {
        assert(w > 0) by (nonlinear_arith)
            requires
                0 <= i < w * h,
                h >= 0,
        ;
        lemma_fundamental_div_mod(i, w);
        let x = i % w;
        let y = i / w;
        assert(0 <= x < w);
        assert(0 <= y < h) by (nonlinear_arith)
            requires
                0 <= i < w * h,
                w > 0,
                i == w * y + x,
                0 <= x < w,
        ;
        assert(y * w + x == i) by (nonlinear_arith)
            requires
                i == w * y + x,
        ;
        assert(a.at(x, y) == b.at(x, y));
    }
    assert(a.cells =~= b.cells);
}

/// Distinct in-bounds coordinates have distinct row-major indices.
pub proof fn lemma_index_distinct(w: int, x1: int, y1: int, x2: int, y2: int)
    requires
        0 <= x1 < w,
        0 <= x2 < w,
        0 <= y1,
        0 <= y2,
        x1 != x2 || y1 != y2,
    ensures
        y1 * w + x1 != y2 * w + x2,
{
    if y1 == y2 {
    } else if y1 < y2 {
        assert(y1 * w + x1 < y2 * w + x2) by (nonlinear_arith)
            requires
                0 <= x1 < w,
                0 <= x2,
                y1 < y2,
        ;
    } else {
        assert(y2 * w + x2 < y1 * w + x1) by (nonlinear_arith)
            requires
                0 <= x2 < w,
                0 <= x1,
                y2 < y1,
        ;
    }
}

} // verus!
