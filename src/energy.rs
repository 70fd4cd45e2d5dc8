use vstd::prelude::*;

use crate::color::{brightness_of, lemma_brightness_bound, pixels_in_range, Color};
use crate::matrix::{lemma_grid_ext, lemma_index_split, Grid, Matrix};

verus! {

/// The largest `r` with `r * r <= n`.
pub open spec fn floor_sqrt(n: nat) -> nat
    decreases n,
{
    if n == 0 {
        0
    } else {
        let r = floor_sqrt((n - 1) as nat);
        if (r + 1) * (r + 1) <= n {
            r + 1
        } else {
            r
        }
    }
}

pub proof fn lemma_floor_sqrt(n: nat)
    ensures
        floor_sqrt(n) * floor_sqrt(n) <= n < (floor_sqrt(n) + 1) * (floor_sqrt(n) + 1),
    decreases n,
{
    if n == 0 {
        assert(floor_sqrt(0) == 0);
        assert(0 * 0 <= 0 < 1 * 1) by (nonlinear_arith);
    } else {
        lemma_floor_sqrt((n - 1) as nat);
        let r = floor_sqrt((n - 1) as nat);
        assert((r + 1) * (r + 1) < (r + 2) * (r + 2)) by (nonlinear_arith);
        if (r + 1) * (r + 1) <= n {
            assert(floor_sqrt(n) == r + 1);
            assert(n < (r + 2) * (r + 2));
            assert(floor_sqrt(n) + 1 == r + 2);
        } else {
            assert(floor_sqrt(n) == r);
            assert(r * r <= n);
        }
    }
}

/// Any `r` that brackets `n` between `r * r` and `(r + 1) * (r + 1)` is its floor square root.
pub proof fn lemma_floor_sqrt_unique(n: nat, r: nat)
    requires
        r * r <= n < (r + 1) * (r + 1),
    ensures
        floor_sqrt(n) == r,
{
    lemma_floor_sqrt(n);
    let s = floor_sqrt(n);
    if s < r {
        assert((s + 1) * (s + 1) <= r * r) by (nonlinear_arith)
            requires
                s + 1 <= r,
        ;
    } else if r < s {
        assert((r + 1) * (r + 1) <= s * s) by (nonlinear_arith)
            requires
                r + 1 <= s,
        ;
    }
}

/// The floor of the square root of `n`.
pub fn isqrt(n: u128) -> (r: u64)
    ensures
        r == floor_sqrt(n as nat),
{
    let mut lo: u128 = 0;
    let mut hi: u128 = 0x1_0000_0000_0000_0000;
    assert(hi * hi == 0x1_0000_0000_0000_0000_0000_0000_0000_0000) by (nonlinear_arith)
        requires
            hi == 0x1_0000_0000_0000_0000u128,
    ;
    while hi - lo > 1
        invariant
            lo < hi <= 0x1_0000_0000_0000_0000,
            lo * lo <= n,
            n < hi * hi,
        decreases hi - lo,
    {
        let mid = lo + (hi - lo) / 2;
        assert(mid * mid < 0x1_0000_0000_0000_0000_0000_0000_0000_0000) by (nonlinear_arith)
            requires
                mid < 0x1_0000_0000_0000_0000,
        ;
        if mid * mid <= n {
            lo = mid;
        } else {
            hi = mid;
        }
    }
    proof {
        lemma_floor_sqrt_unique(n as nat, lo as nat);
    }
    lo as u64
}

/// The brightness of the cell at `(x, y)`.
pub open spec fn bright_at(img: Grid<Color>, x: int, y: int) -> int {
    brightness_of(img.at(x, y)) as int
}

pub open spec fn left_of(img: Grid<Color>, x: int, y: int) -> int {
    if x > 0 {
        bright_at(img, x - 1, y)
    } else {
        bright_at(img, x, y)
    }
}

pub open spec fn right_of(img: Grid<Color>, x: int, y: int) -> int {
    if x + 1 < img.width {
        bright_at(img, x + 1, y)
    } else {
        bright_at(img, x, y)
    }
}

pub open spec fn above(img: Grid<Color>, x: int, y: int) -> int {
    if y > 0 {
        bright_at(img, x, y - 1)
    } else {
        bright_at(img, x, y)
    }
}

pub open spec fn below(img: Grid<Color>, x: int, y: int) -> int {
    if y + 1 < img.height {
        bright_at(img, x, y + 1)
    } else {
        bright_at(img, x, y)
    }
}

/// The gradient energy of the cell at `(x, y)`: with edge-clamped neighbour
/// brightnesses `l, r, u, d`, the floor of `sqrt(((r - l)^2 + (u - d)^2) / 2)`,
/// which is `sqrt((r - l)^2 / 4 + (u - d)^2 / 4) / sqrt(1/2)` in brightness units.
pub open spec fn energy_of(img: Grid<Color>, x: int, y: int) -> nat {
    let dx = right_of(img, x, y) - left_of(img, x, y);
    let dy = above(img, x, y) - below(img, x, y);
    floor_sqrt(((dx * dx + dy * dy) / 2) as nat)
}

/// The energy field of `img`: a grid of the same shape holding `energy_of` at each cell.
pub open spec fn is_energy_field(e: Grid<u64>, img: Grid<Color>) -> bool {
    &&& e.wf()
    &&& e.width == img.width
    &&& e.height == img.height
    &&& forall|x: int, y: int| e.in_bounds(x, y) ==> e.at(x, y) == energy_of(img, x, y)
}

/// The energy field of `img` as a grid.
pub open spec fn energy_grid(img: Grid<Color>) -> Grid<u64> {
    Grid {
        width: img.width,
        height: img.height,
        cells: Seq::new(
            img.width * img.height,
            |i: int| energy_of(img, i % (img.width as int), i / (img.width as int)) as u64,
        ),
    }
}

/// Each cell of `energy_grid(img)` is the energy of that pixel.
pub proof fn lemma_energy_grid_at(img: Grid<Color>, x: int, y: int)
    requires
        img.wf(),
        pixels_in_range(img),
        img.in_bounds(x, y),
    ensures
        energy_grid(img).at(x, y) == energy_of(img, x, y),
{
    lemma_index_split(img.width as int, x, y);
    crate::matrix::lemma_index_in_range(img.width as int, img.height as int, x, y);
    lemma_energy_bound(img, x, y);
}

/// A grid is the energy field of `img` exactly when it is `energy_grid(img)`.
pub proof fn lemma_energy_grid(e: Grid<u64>, img: Grid<Color>)
    requires
        img.wf(),
        pixels_in_range(img),
        is_energy_field(e, img),
    ensures
        e == energy_grid(img),
{
    let g = energy_grid(img);
    assert forall|x: int, y: int| e.in_bounds(x, y) implies #[trigger] e.at(x, y) == g.at(x, y) by {
        lemma_index_split(img.width as int, x, y);
        crate::matrix::lemma_index_in_range(img.width as int, img.height as int, x, y);
        lemma_energy_bound(img, x, y);
    }
    lemma_grid_ext(e, g);
}

/// No energy reaches `2^62`.
pub proof fn lemma_energy_bound(img: Grid<Color>, x: int, y: int)
    requires
        img.wf(),
        pixels_in_range(img),
        img.in_bounds(x, y),
    ensures
        energy_of(img, x, y) < 0x4000_0000_0000_0000,
{
    let w = img.width as int;
    let h = img.height as int;
    if x > 0 {
        lemma_brightness_bound(img.at(x - 1, y));
    }
    if x + 1 < w {
        lemma_brightness_bound(img.at(x + 1, y));
    }
    if y > 0 {
        lemma_brightness_bound(img.at(x, y - 1));
    }
    if y + 1 < h {
        lemma_brightness_bound(img.at(x, y + 1));
    }
    lemma_brightness_bound(img.at(x, y));
    let dx = right_of(img, x, y) - left_of(img, x, y);
    let dy = above(img, x, y) - below(img, x, y);
    let q = ((dx * dx + dy * dy) / 2) as nat;
    let b: int = 0x4000_0000_0000_0000;
    assert(dx * dx + dy * dy < 2 * b * b) by (nonlinear_arith)
        requires
            -b < dx < b,
            -b < dy < b,
    ;
    let sum = dx * dx + dy * dy;
    assert(dx * dx + dy * dy >= 0) by (nonlinear_arith);
    assert(sum / 2 < b * b) by (nonlinear_arith)
        requires
            0 <= sum < 2 * b * b,
    ;
    lemma_floor_sqrt(q);
    let s = floor_sqrt(q);
    if s >= b {
        assert(s * s >= b * b) by (nonlinear_arith)
            requires
                s >= b,
                b >= 0,
        ;
    }
}

/// The square of the difference of two brightnesses.
fn square_diff(a: u64, b: u64) -> (r: u128)
    requires
        a < 0x4000_0000_0000_0000,
        b < 0x4000_0000_0000_0000,
    ensures
        r == (a - b) * (a - b),
        r < 0x1000_0000_0000_0000_0000_0000_0000_0000,
{
    let d: u64 = if a >= b {
        a - b
    } else {
        b - a
    };
    assert((d as u128) * (d as u128) < 0x1000_0000_0000_0000_0000_0000_0000_0000) by (nonlinear_arith)
        requires
            d < 0x4000_0000_0000_0000,
    ;
    assert((a - b) * (a - b) == d * d) by (nonlinear_arith)
        requires
            d == a - b || d == b - a,
    ;
    (d as u128) * (d as u128)
}

impl Matrix<Color> {
    /// The energy of the cell at `(x, y)`.
    pub fn energy_at(&self, x: usize, y: usize) -> (e: u64)
        requires
            self@.wf(),
            pixels_in_range(self@),
            self@.in_bounds(x as int, y as int),
        ensures
            e == energy_of(self@, x as int, y as int),
    {
        let ghost img = self@;
        let c = self.at(x, y);
        let l = if x > 0 {
            self.at(x - 1, y)
        } else {
            c
        }.brightness();
        let r = if x < self.width() - 1 {
            self.at(x + 1, y)
        } else {
            c
        }.brightness();
        let u = if y > 0 {
            self.at(x, y - 1)
        } else {
            c
        }.brightness();
        let d = if y < self.height() - 1 {
            self.at(x, y + 1)
        } else {
            c
        }.brightness();
        proof {
            lemma_brightness_bound(self@.at(x as int, y as int));
            if x > 0 {
                lemma_brightness_bound(self@.at(x - 1, y as int));
            }
            if x + 1 < img.width {
                lemma_brightness_bound(self@.at(x + 1, y as int));
            }
            if y > 0 {
                lemma_brightness_bound(self@.at(x as int, y - 1));
            }
            if y + 1 < img.height {
                lemma_brightness_bound(self@.at(x as int, y + 1));
            }
        }
        let sx = square_diff(r, l);
        let sy = square_diff(u, d);
        let e = isqrt((sx + sy) / 2);
        e
    }

    /// The energy field: a matrix of the same shape whose cells are `energy_of` each pixel.
    pub fn energy(&self) -> (m: Matrix<u64>)
        requires
            self@.wf(),
            pixels_in_range(self@),
        ensures
            is_energy_field(m@, self@),
            m@ == energy_grid(self@),
    {
        let w = self.width();
        let h = self.height();
        let _n = self.cells().len();
        let mut m: Matrix<u64> = Matrix::new(w, h, 0);
        let mut y: usize = 0;
        while y < h
            invariant
                self@.wf(),
                pixels_in_range(self@),
                w == self@.width,
                h == self@.height,
                m@.wf(),
                m@.width == w,
                m@.height == h,
                y <= h,
                forall|i: int, j: int|
                    0 <= i < w && 0 <= j < y ==> m@.at(i, j) == energy_of(self@, i, j),
            decreases h - y,
        {
            let mut x: usize = 0;
            while x < w
                invariant
                    self@.wf(),
                    pixels_in_range(self@),
                    w == self@.width,
                    h == self@.height,
                    m@.wf(),
                    m@.width == w,
                    m@.height == h,
                    y < h,
                    x <= w,
                    forall|i: int, j: int|
                        0 <= i < w && 0 <= j < y ==> m@.at(i, j) == energy_of(self@, i, j),
                    forall|i: int| 0 <= i < x ==> m@.at(i, y as int) == energy_of(self@, i, y as int),
                decreases w - x,
            {
                let e = self.energy_at(x, y);
                m.set(x, y, e);
                x = x + 1;
            }
            y = y + 1;
        }
        proof {
            lemma_energy_grid(m@, self@);
        }
        m
    }
}

} // verus!
