use vstd::prelude::*;

use crate::color::{channels_in_range, pixels_in_range, Color};
use crate::energy::{energy_grid, energy_of, floor_sqrt, lemma_energy_grid_at};
use crate::matrix::{lemma_grid_ext, lemma_index_in_range, lemma_index_split, Grid, Matrix};
use crate::seam::{
    best_end,
    dp_row,
    find_seam,
    is_seam,
    seam_cols,
    seam_energy,
    trace,
    lemma_trace,
    lemma_leftmost_min,
    lemma_dp_row,
    SeamError,
};

verus! {

/// An image: a matrix of colours.
pub type Image = Matrix<Color>;

/// The pixel that lands at `(x, y)` once column `s[y]` is dropped from each row `y`.
pub open spec fn carved_at(img: Grid<Color>, s: Seq<int>, x: int, y: int) -> Color {
    if x < s[y] {
        img.at(x, y)
    } else {
        img.at(x + 1, y)
    }
}

/// `img` with the cell of column `s[y]` dropped from each row `y`.
pub open spec fn removed(img: Grid<Color>, s: Seq<int>) -> Grid<Color> {
    let w = (img.width - 1) as nat;
    Grid {
        width: w,
        height: img.height,
        cells: Seq::new(w * img.height, |i: int| carved_at(img, s, i % (w as int), i / (w as int))),
    }
}

/// The seam that carving `img` removes.
pub open spec fn chosen_seam(img: Grid<Color>) -> Seq<int> {
    let e = energy_grid(img);
    trace(e, best_end(e), (img.height - 1) as nat)
}

/// `img` after one carving step.
pub open spec fn carved_once(img: Grid<Color>) -> Grid<Color> {
    removed(img, chosen_seam(img))
}

/// `img` after `n` carving steps.
pub open spec fn carved_n(img: Grid<Color>, n: nat) -> Grid<Color>
    decreases n,
{
    if n == 0 {
        img
    } else {
        carved_once(carved_n(img, (n - 1) as nat))
    }
}

pub proof fn lemma_removed(img: Grid<Color>, s: Seq<int>)
    requires
        img.width > 0,
    ensures
        removed(img, s).wf(),
        removed(img, s).width == img.width - 1,
        removed(img, s).height == img.height,
        pixels_in_range(img) ==> pixels_in_range(removed(img, s)),
        forall|x: int, y: int|
            removed(img, s).in_bounds(x, y) ==> #[trigger] removed(img, s).at(x, y) == carved_at(
                img,
                s,
                x,
                y,
            ),
{
    let r = removed(img, s);
    let w = img.width - 1;
    assert forall|x: int, y: int| r.in_bounds(x, y) implies #[trigger] r.at(x, y) == carved_at(
        img,
        s,
        x,
        y,
    ) by {
        lemma_index_split(w as int, x, y);
        lemma_index_in_range(w as int, img.height as int, x, y);
    }
    if pixels_in_range(img) {
        assert forall|x: int, y: int| r.in_bounds(x, y) implies channels_in_range(
            #[trigger] r.at(x, y),
        ) by {
            if x < s[y] {
                assert(channels_in_range(img.at(x, y)));
            } else {
                assert(channels_in_range(img.at(x + 1, y)));
            }
        }
    }
}

/// The seam `carve` removes is a seam of the image.
pub proof fn lemma_chosen_seam(img: Grid<Color>)
    requires
        img.width > 0,
        img.height > 0,
    ensures
        is_seam(chosen_seam(img), img.width, img.height),
{
    let e = energy_grid(img);
    let h = (img.height - 1) as nat;
    lemma_dp_row(e, h);
    lemma_leftmost_min(dp_row(e, h), e.width);
    lemma_trace(e, best_end(e), h);
}

/// Carving zero columns gives the image back unchanged.
pub proof fn lemma_carve_zero(img: Grid<Color>)
    ensures
        carved_n(img, 0) == img,
{
}

/// One carving step narrows an image by one column, keeps its height, and keeps
/// every pixel off the removed seam: left of the seam in place, right of it
/// shifted one column to the left.
pub proof fn lemma_carve_one(img: Grid<Color>)
    requires
        img.wf(),
        img.width > 1,
        img.height > 0,
    ensures
        is_seam(chosen_seam(img), img.width, img.height),
        carved_n(img, 1).wf(),
        carved_n(img, 1).width == img.width - 1,
        carved_n(img, 1).height == img.height,
        forall|x: int, y: int|
            carved_n(img, 1).in_bounds(x, y) ==> #[trigger] carved_n(img, 1).at(x, y) == if x
                < chosen_seam(img)[y] {
                img.at(x, y)
            } else {
                img.at(x + 1, y)
            },
{
    lemma_chosen_seam(img);
    assert(carved_n(img, 1) == carved_once(carved_n(img, 0)));
    lemma_removed(img, chosen_seam(img));
}

/// In an image of one colour every energy is zero, and so is the least seam cost.
pub proof fn lemma_uniform_image(img: Grid<Color>, c: Color)
    requires
        img.wf(),
        channels_in_range(c),
        forall|x: int, y: int| img.in_bounds(x, y) ==> #[trigger] img.at(x, y) == c,
    ensures
        forall|x: int, y: int| img.in_bounds(x, y) ==> #[trigger] energy_grid(img).at(x, y) == 0,
        img.width > 0 && img.height > 0 ==> dp_row(
            energy_grid(img),
            (img.height - 1) as nat,
        )[best_end(energy_grid(img))] == 0,
{
    let e = energy_grid(img);
    assert(pixels_in_range(img));
    assert forall|x: int, y: int| img.in_bounds(x, y) implies #[trigger] e.at(x, y) == 0 by {
        lemma_energy_grid_at(img, x, y);
        assert(img.at(x, y) == c);
        if x > 0 {
            assert(img.at(x - 1, y) == c);
        }
        if x + 1 < img.width {
            assert(img.at(x + 1, y) == c);
        }
        if y > 0 {
            assert(img.at(x, y - 1) == c);
        }
        if y + 1 < img.height {
            assert(img.at(x, y + 1) == c);
        }
        let b = crate::energy::bright_at(img, x, y);
        assert(crate::energy::left_of(img, x, y) == b);
        assert(crate::energy::right_of(img, x, y) == b);
        assert(crate::energy::above(img, x, y) == b);
        assert(crate::energy::below(img, x, y) == b);
        let dx = crate::energy::right_of(img, x, y) - crate::energy::left_of(img, x, y);
        let dy = crate::energy::above(img, x, y) - crate::energy::below(img, x, y);
        assert(dx == 0 && dy == 0);
        assert(dx * dx + dy * dy == 0) by (nonlinear_arith)
            requires
                dx == 0 && dy == 0,
        ;
        assert(floor_sqrt(0) == 0);
        assert(energy_of(img, x, y) == floor_sqrt(((dx * dx + dy * dy) / 2) as nat));
    }
    if img.width > 0 && img.height > 0 {
        let h = (img.height - 1) as nat;
        lemma_zero_rows(e, h);
        lemma_dp_row(e, h);
        lemma_leftmost_min(dp_row(e, h), e.width);
    }
}

/// Over an all-zero energy field every cumulative cost is zero.
pub proof fn lemma_zero_rows(e: Grid<u64>, y: nat)
    requires
        y < e.height,
        forall|x: int, j: int| e.in_bounds(x, j) ==> #[trigger] e.at(x, j) == 0,
    ensures
        forall|x: int| 0 <= x < e.width ==> #[trigger] dp_row(e, y)[x] == 0,
    decreases y,
{
    if y > 0 {
        lemma_zero_rows(e, (y - 1) as nat);
        let prev = dp_row(e, (y - 1) as nat);
        lemma_dp_row(e, (y - 1) as nat);
        assert forall|x: int| 0 <= x < e.width implies #[trigger] dp_row(e, y)[x] == 0 by {
            crate::seam::lemma_dir_in_range(prev, x);
            assert(e.at(x, y as int) == 0);
        }
    } else {
        assert forall|x: int| 0 <= x < e.width implies #[trigger] dp_row(e, y)[x] == 0 by {
            assert(e.at(x, 0) == 0);
        }
    }
}

impl Matrix<Color> {
    /// The seam of least total energy, top to bottom, with that energy.
    pub fn best_seam(&self) -> (r: Result<(u128, Vec<usize>), SeamError>)
        requires
            self@.wf(),
            pixels_in_range(self@),
        ensures
            r is Err <==> self@.width == 0 || self@.height == 0,
            r is Err ==> r == Err::<(u128, Vec<usize>), SeamError>(SeamError::DimensionError),
            r matches Ok((c, s)) ==> {
                let e = energy_grid(self@);
                &&& c == dp_row(e, (self@.height - 1) as nat)[best_end(e)]
                &&& seam_cols(s@) == chosen_seam(self@)
                &&& is_seam(seam_cols(s@), self@.width, self@.height)
                &&& c == seam_energy(e, seam_cols(s@))
                &&& forall|q: Seq<int>|
                    is_seam(q, self@.width, self@.height) ==> c <= seam_energy(e, q)
            },
    {
        let e = self.energy();
        find_seam(&e)
    }

    /// This image with the cell of column `seam[y]` dropped from each row `y`.
    pub fn remove_seam(&self, seam: &Vec<usize>) -> (r: Image)
        requires
            self@.wf(),
            self@.width > 0,
            seam@.len() == self@.height,
            forall|y: int| 0 <= y < self@.height ==> #[trigger] seam@[y] < self@.width,
        ensures
            r@ == removed(self@, seam_cols(seam@)),
            r@.wf(),
            r@.width == self@.width - 1,
            r@.height == self@.height,
            pixels_in_range(self@) ==> pixels_in_range(r@),
    {
        let w = self.width();
        let h = self.height();
        let _n = self.cells().len();
        let ghost s = seam_cols(seam@);
        assert((w - 1) * h <= w * h) by (nonlinear_arith)
            requires
                w >= 1,
        ;
        let mut out: Image = Matrix::new(w - 1, h, Color::black());
        let mut y: usize = 0;
        while y < h
            invariant
                self@.wf(),
                w == self@.width,
                h == self@.height,
                w > 0,
                seam@.len() == h,
                forall|j: int| 0 <= j < h ==> #[trigger] seam@[j] < w,
                s == seam_cols(seam@),
                out@.wf(),
                out@.width == w - 1,
                out@.height == h,
                y <= h,
                forall|i: int, j: int|
                    0 <= i < w - 1 && 0 <= j < y ==> #[trigger] out@.at(i, j) == carved_at(
                        self@,
                        s,
                        i,
                        j,
                    ),
            decreases h - y,
        {
            let sy = seam[y];
            let mut x: usize = 0;
            while x < w
                invariant
                    self@.wf(),
                    w == self@.width,
                    h == self@.height,
                    w > 0,
                    s == seam_cols(seam@),
                    seam@.len() == h,
                    sy == seam@[y as int],
                    sy < w,
                    out@.wf(),
                    out@.width == w - 1,
                    out@.height == h,
                    y < h,
                    x <= w,
                    forall|i: int, j: int|
                        0 <= i < w - 1 && 0 <= j < y ==> #[trigger] out@.at(i, j) == carved_at(
                            self@,
                            s,
                            i,
                            j,
                        ),
                    forall|i: int|
                        0 <= i < w - 1 && (i < sy ==> i < x) && (i >= sy ==> i + 1 < x)
                            ==> #[trigger] out@.at(i, y as int) == carved_at(self@, s, i, y as int),
                decreases w - x,
            {
                assert(s[y as int] == sy as int);
                if x < sy {
                    out.set(x, y, self.at(x, y));
                } else if x > sy {
                    out.set(x - 1, y, self.at(x, y));
                }
                x = x + 1;
            }
            y = y + 1;
        }
        proof {
            lemma_removed(self@, s);
            lemma_grid_ext(out@, removed(self@, s));
        }
        out
    }

    /// This image narrowed by one column: the seam of least energy is removed.
    pub fn carve(&self) -> (r: Result<Image, SeamError>)
        requires
            self@.wf(),
            pixels_in_range(self@),
        ensures
            r is Err <==> self@.width == 0 || self@.height == 0,
            r is Err ==> r == Err::<Image, SeamError>(SeamError::DimensionError),
            r matches Ok(m) ==> m@ == carved_once(self@),
    {
        match self.best_seam() {
            Err(err) => Err(err),
            Ok((_, seam)) => {
                proof {
                    lemma_chosen_seam(self@);
                    assert forall|y: int| 0 <= y < self@.height implies #[trigger] seam@[y]
                        < self@.width by {
                        assert(0 <= seam_cols(seam@)[y] < self@.width);
                    }
                }
                Ok(self.remove_seam(&seam))
            },
        }
    }

    /// This image narrowed by `n` columns, one carving step at a time.
    pub fn carven(&self, n: usize) -> (r: Result<Image, SeamError>)
        requires
            self@.wf(),
            pixels_in_range(self@),
        ensures
            r is Err <==> n >= self@.width || (n > 0 && self@.height == 0),
            r is Err ==> r == Err::<Image, SeamError>(SeamError::DimensionError),
            r matches Ok(m) ==> m@ == carved_n(self@, n as nat),
    {
        let w = self.width();
        if n >= w || (n > 0 && self.height() == 0) {
            return Err(SeamError::DimensionError);
        }
        let mut im = self.duplicate();
        let mut i: usize = 0;
        while i < n
            invariant
                i <= n < w,
                w == self@.width,
                n > 0 ==> self@.height > 0,
                im@.wf(),
                pixels_in_range(im@),
                im@.width == w - i,
                im@.height == self@.height,
                im@ == carved_n(self@, i as nat),
            decreases n - i,
        {
            match im.carve() {
                Ok(c) => {
                    proof {
                        lemma_removed(im@, chosen_seam(im@));
                    }
                    im = c;
                },
                Err(err) => {
                    return Err(err);
                },
            }
            i = i + 1;
        }
        Ok(im)
    }
}

} // verus!
