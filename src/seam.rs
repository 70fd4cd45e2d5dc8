use vstd::prelude::*;

use crate::matrix::{Grid, Matrix};

verus! {

/// Where a seam cell's predecessor lies in the row above.
#[derive(Clone, Copy, Debug, PartialEq, Eq, Structural)]
pub enum Direction {
    Left,
    Right,
    /// Straight above: no horizontal offset.
    Up,
}

/// One cell of the cost table: the least cost of a seam from row 0 to this
/// cell, and the direction of the chosen predecessor (none in row 0).
#[derive(Clone, Copy, Debug, PartialEq, Eq, Structural)]
pub struct SeamCell {
    pub cost: u128,
    pub dir: Option<Direction>,
}

/// The reasons a seam cannot be found or removed.
#[derive(Clone, Copy, Debug, PartialEq, Eq, Structural)]
pub enum SeamError {
    /// The image has no column or no row, or too many columns were asked for.
    DimensionError,
}

pub open spec fn offset(d: Direction) -> int {
    match d {
        Direction::Left => -1,
        Direction::Right => 1,
        Direction::Up => 0,
    }
}

/// The predecessor chosen for column `x`, given the costs `prev` of the row above:
/// the cheapest of the in-range neighbours, ties going to Left, then Right, then Up.
pub open spec fn dir_of(prev: Seq<nat>, x: int) -> Direction {
    let has_l = x > 0;
    let has_r = x + 1 < prev.len();
    let t = prev[x];
    if has_l && prev[x - 1] <= t && (!has_r || prev[x - 1] <= prev[x + 1]) {
        Direction::Left
    } else if has_r && prev[x + 1] <= t && (!has_l || prev[x + 1] <= prev[x - 1]) {
        Direction::Right
    } else {
        Direction::Up
    }
}

/// The column of the predecessor chosen for column `x`.
pub open spec fn pred_col(prev: Seq<nat>, x: int) -> int {
    x + offset(dir_of(prev, x))
}

/// The least cumulative energies of seams ending in each column of row `y`.
pub open spec fn dp_row(e: Grid<u64>, y: nat) -> Seq<nat>
    decreases y,
{
    if y == 0 {
        Seq::new(e.width, |x: int| e.at(x, 0) as nat)
    } else {
        let prev = dp_row(e, (y - 1) as nat);
        Seq::new(e.width, |x: int| (e.at(x, y as int) + prev[pred_col(prev, x)]) as nat)
    }
}

/// The table cell that the cost table holds at `(x, y)`.
pub open spec fn dp_cell_ok(e: Grid<u64>, c: SeamCell, x: int, y: int) -> bool {
    &&& c.cost == dp_row(e, y as nat)[x]
    &&& c.dir == if y == 0 {
        None::<Direction>
    } else {
        Some(dir_of(dp_row(e, (y - 1) as nat), x))
    }
}

/// The columns, top to bottom, of the seam that ends at column `x` of row `y`
/// by following the chosen predecessors upward.
pub open spec fn trace(e: Grid<u64>, x: int, y: nat) -> Seq<int>
    decreases y,
{
    if y == 0 {
        seq![x]
    } else {
        trace(e, pred_col(dp_row(e, (y - 1) as nat), x), (y - 1) as nat).push(x)
    }
}

/// The first index among `s[0..n]` that holds the least value.
pub open spec fn leftmost_min(s: Seq<nat>, n: nat) -> int
    decreases n,
{
    if n <= 1 {
        0
    } else {
        let b = leftmost_min(s, (n - 1) as nat);
        if s[n - 1] < s[b] {
            n - 1
        } else {
            b
        }
    }
}

/// The column at which the chosen seam ends: the leftmost cheapest of the last row.
pub open spec fn best_end(e: Grid<u64>) -> int {
    leftmost_min(dp_row(e, (e.height - 1) as nat), e.width)
}

pub open spec fn seam_cols(s: Seq<usize>) -> Seq<int> {
    s.map_values(|c: usize| c as int)
}

pub proof fn lemma_dir_in_range(prev: Seq<nat>, x: int)
    requires
        0 <= x < prev.len(),
    ensures
        0 <= pred_col(prev, x) < prev.len(),
        -1 <= pred_col(prev, x) - x <= 1,
{
}

pub proof fn lemma_dp_row(e: Grid<u64>, y: nat)
    ensures
        dp_row(e, y).len() == e.width,
        forall|x: int|
            0 <= x < e.width ==> dp_row(e, y)[x] <= (y + 1) * 0xffff_ffff_ffff_ffff
                && dp_row(e, y)[x] >= e.at(x, y as int),
    decreases y,
{
    if y > 0 {
        lemma_dp_row(e, (y - 1) as nat);
        let prev = dp_row(e, (y - 1) as nat);
        assert forall|x: int| 0 <= x < e.width implies dp_row(e, y)[x] <= (y + 1)
            * 0xffff_ffff_ffff_ffff && dp_row(e, y)[x] >= e.at(x, y as int) by {
            lemma_dir_in_range(prev, x);
            let p = pred_col(prev, x);
            assert(prev[p] <= y * 0xffff_ffff_ffff_ffff);
            assert(y * 0xffff_ffff_ffff_ffff + 0xffff_ffff_ffff_ffff == (y + 1)
                * 0xffff_ffff_ffff_ffff) by (nonlinear_arith);
        }
    }
}

/// Builds the cost table over the energy field `e`.
pub fn cost_table(e: &Matrix<u64>) -> (t: Matrix<SeamCell>)
    requires
        e@.wf(),
    ensures
        t@.wf(),
        t@.width == e@.width,
        t@.height == e@.height,
        forall|x: int, y: int| t@.in_bounds(x, y) ==> dp_cell_ok(e@, #[trigger] t@.at(x, y), x, y),
{
    let w = e.width();
    let h = e.height();
    let _n = e.cells().len();
    let mut t: Matrix<SeamCell> = Matrix::new(w, h, SeamCell { cost: 0, dir: None });
    let mut y: usize = 0;
    while y < h
        invariant
            e@.wf(),
            w == e@.width,
            h == e@.height,
            h <= usize::MAX,
            t@.wf(),
            t@.width == w,
            t@.height == h,
            y <= h,
            forall|i: int, j: int|
                0 <= i < w && 0 <= j < y ==> dp_cell_ok(e@, t@.at(i, j), i, j),
        decreases h - y,
    {
        let mut x: usize = 0;
        while x < w
            invariant
                e@.wf(),
                w == e@.width,
                h == e@.height,
                h <= usize::MAX,
                t@.wf(),
                t@.width == w,
                t@.height == h,
                y < h,
                x <= w,
                forall|i: int, j: int|
                    0 <= i < w && 0 <= j < y ==> dp_cell_ok(e@, t@.at(i, j), i, j),
                forall|i: int| 0 <= i < x ==> dp_cell_ok(e@, t@.at(i, y as int), i, y as int),
            decreases w - x,
        {
            let my = e.at(x, y);
            if y == 0 {
                t.set(x, y, SeamCell { cost: my as u128, dir: None });
            } else {
                let ghost prev = dp_row(e@, (y - 1) as nat);
                proof {
                    lemma_dp_row(e@, (y - 1) as nat);
                }
                let up = t.at(x, y - 1).cost;
                let has_l = x > 0;
                let has_r = x + 1 < w;
                let lc = if has_l {
                    t.at(x - 1, y - 1).cost
                } else {
                    0
                };
                let rc = if has_r {
                    t.at(x + 1, y - 1).cost
                } else {
                    0
                };
                let (d, pc) = if has_l && lc <= up && (!has_r || lc <= rc) {
                    (Direction::Left, lc)
                } else if has_r && rc <= up && (!has_l || rc <= lc) {
                    (Direction::Right, rc)
                } else {
                    (Direction::Up, up)
                };
                assert(d == dir_of(prev, x as int));
                assert(pc == prev[pred_col(prev, x as int)]);
                assert(pc + my <= (y + 1) * 0xffff_ffff_ffff_ffff);
                assert((y + 1) * 0xffff_ffff_ffff_ffff <= 0xffff_ffff_ffff_ffff
                    * 0xffff_ffff_ffff_ffff) by (nonlinear_arith)
                    requires
                        y + 1 <= 0xffff_ffff_ffff_ffff,
                ;
                t.set(x, y, SeamCell { cost: my as u128 + pc, dir: Some(d) });
            }
            x = x + 1;
        }
        y = y + 1;
    }
    t
}

/// `s` from last to first.
pub open spec fn reversed(s: Seq<int>) -> Seq<int> {
    Seq::new(s.len(), |i: int| s[s.len() - 1 - i])
}

pub proof fn lemma_leftmost_min(s: Seq<nat>, n: nat)
    requires
        1 <= n <= s.len(),
    ensures
        0 <= leftmost_min(s, n) < n,
        forall|i: int| 0 <= i < n ==> s[leftmost_min(s, n)] <= #[trigger] s[i],
        forall|i: int| 0 <= i < leftmost_min(s, n) ==> s[leftmost_min(s, n)] < #[trigger] s[i],
    decreases n,
{
    if n > 1 {
        lemma_leftmost_min(s, (n - 1) as nat);
    }
}

/// The traced seam has one column per row, each in range, each within one
/// column of the next.
pub proof fn lemma_trace(e: Grid<u64>, x: int, y: nat)
    requires
        0 <= x < e.width,
    ensures
        trace(e, x, y).len() == y + 1,
        trace(e, x, y)[y as int] == x,
        forall|i: int| 0 <= i <= y ==> 0 <= #[trigger] trace(e, x, y)[i] < e.width,
        forall|i: int|
            0 < i <= y ==> -1 <= #[trigger] trace(e, x, y)[i] - trace(e, x, y)[i - 1] <= 1,
    decreases y,
{
    if y > 0 {
        let prev = dp_row(e, (y - 1) as nat);
        lemma_dp_row(e, (y - 1) as nat);
        lemma_dir_in_range(prev, x);
        lemma_trace(e, pred_col(prev, x), (y - 1) as nat);
    }
}

/// `s` is a seam of a `w` by `h` grid: one column per row, each in range,
/// each within one column of the one above.
pub open spec fn is_seam(s: Seq<int>, w: nat, h: nat) -> bool {
    &&& s.len() == h
    &&& forall|i: int| 0 <= i < h ==> 0 <= #[trigger] s[i] < w
    &&& forall|i: int| 0 < i < h ==> -1 <= #[trigger] s[i] - s[i - 1] <= 1
}

/// The summed energy of the cells `(s[i], i)` of the first `n` rows.
pub open spec fn path_energy(e: Grid<u64>, s: Seq<int>, n: nat) -> nat
    decreases n,
{
    if n == 0 {
        0
    } else {
        path_energy(e, s, (n - 1) as nat) + e.at(s[n - 1], n - 1) as nat
    }
}

/// The summed energy of the cells of a seam.
pub open spec fn seam_energy(e: Grid<u64>, s: Seq<int>) -> nat {
    path_energy(e, s, s.len())
}

pub proof fn lemma_path_energy_prefix(e: Grid<u64>, s1: Seq<int>, s2: Seq<int>, n: nat)
    requires
        n <= s1.len(),
        n <= s2.len(),
        forall|i: int| 0 <= i < n ==> s1[i] == s2[i],
    ensures
        path_energy(e, s1, n) == path_energy(e, s2, n),
    decreases n,
{
    if n > 0 {
        lemma_path_energy_prefix(e, s1, s2, (n - 1) as nat);
    }
}

/// The traced seam costs exactly the cumulative cost of its last cell.
pub proof fn lemma_trace_energy(e: Grid<u64>, x: int, y: nat)
    requires
        0 <= x < e.width,
    ensures
        path_energy(e, trace(e, x, y), y + 1) == dp_row(e, y)[x],
    decreases y,
{
    lemma_trace(e, x, y);
    if y == 0 {
        assert(path_energy(e, trace(e, x, 0), 0) == 0);
    } else {
        let prev = dp_row(e, (y - 1) as nat);
        lemma_dp_row(e, (y - 1) as nat);
        lemma_dir_in_range(prev, x);
        let p = pred_col(prev, x);
        lemma_trace_energy(e, p, (y - 1) as nat);
        lemma_trace(e, p, (y - 1) as nat);
        let t = trace(e, x, y);
        let tp = trace(e, p, (y - 1) as nat);
        assert(t == tp.push(x));
        lemma_path_energy_prefix(e, t, tp, y);
    }
}

/// No path through rows `0..=y` that ends at column `x` costs less than `dp_row(e, y)[x]`.
pub proof fn lemma_dp_optimal(e: Grid<u64>, s: Seq<int>, y: nat)
    requires
        y < s.len(),
        forall|i: int| 0 <= i <= y ==> 0 <= #[trigger] s[i] < e.width,
        forall|i: int| 0 < i <= y ==> -1 <= #[trigger] s[i] - s[i - 1] <= 1,
    ensures
        dp_row(e, y)[s[y as int]] <= path_energy(e, s, y + 1),
    decreases y,
{
    if y > 0 {
        let x = s[y as int];
        let prev = dp_row(e, (y - 1) as nat);
        lemma_dp_row(e, (y - 1) as nat);
        lemma_dp_optimal(e, s, (y - 1) as nat);
        assert(-1 <= s[y as int] - s[y - 1] <= 1);
        assert(prev[pred_col(prev, x)] <= prev[s[y - 1]]);
    }
}

/// The chosen seam is optimal: no seam of the grid has a smaller summed energy
/// than the cumulative cost at the chosen end column.
pub proof fn lemma_best_end_optimal(e: Grid<u64>, s: Seq<int>)
    requires
        e.width > 0,
        e.height > 0,
        is_seam(s, e.width, e.height),
    ensures
        dp_row(e, (e.height - 1) as nat)[best_end(e)] <= seam_energy(e, s),
{
    let y = (e.height - 1) as nat;
    lemma_dp_row(e, y);
    lemma_leftmost_min(dp_row(e, y), e.width);
    lemma_dp_optimal(e, s, y);
    assert(0 <= s[y as int] < e.width);
}

/// Finds the seam of least total energy over the energy field `e`.
///
/// The seam ends at the leftmost column of least cumulative cost in the last row
/// and follows the chosen predecessors upward; it is returned top to bottom with
/// its total energy. No seam of the field has a smaller total.
pub fn find_seam(e: &Matrix<u64>) -> (r: Result<(u128, Vec<usize>), SeamError>)
    requires
        e@.wf(),
    ensures
        r is Err <==> e@.width == 0 || e@.height == 0,
        r is Err ==> r == Err::<(u128, Vec<usize>), SeamError>(SeamError::DimensionError),
        r matches Ok((c, s)) ==> {
            &&& c == dp_row(e@, (e@.height - 1) as nat)[best_end(e@)]
            &&& seam_cols(s@) == trace(e@, best_end(e@), (e@.height - 1) as nat)
            &&& is_seam(seam_cols(s@), e@.width, e@.height)
            &&& c == seam_energy(e@, seam_cols(s@))
            &&& forall|q: Seq<int>| is_seam(q, e@.width, e@.height) ==> c <= seam_energy(e@, q)
        },
{
    let w = e.width();
    let h = e.height();
    if w == 0 || h == 0 {
        return Err(SeamError::DimensionError);
    }
    let t = cost_table(e);
    let ghost last = dp_row(e@, (h - 1) as nat);
    proof {
        lemma_dp_row(e@, (h - 1) as nat);
    }
    let mut have_best = false;
    let mut best_cost: u128 = 0;
    let mut best_pixels: Vec<usize> = Vec::new();
    let mut x: usize = 0;
    while x < w
        invariant
            e@.wf(),
            w == e@.width,
            h == e@.height,
            w > 0,
            h > 0,
            t@.wf(),
            t@.width == w,
            t@.height == h,
            forall|i: int, j: int| t@.in_bounds(i, j) ==> dp_cell_ok(e@, #[trigger] t@.at(i, j), i, j),
            last == dp_row(e@, (h - 1) as nat),
            last.len() == w,
            x <= w,
            have_best <==> x > 0,
            x > 0 ==> best_cost == last[leftmost_min(last, x as nat)],
            x > 0 ==> trace(e@, leftmost_min(last, x as nat), (h - 1) as nat) == reversed(
                seam_cols(best_pixels@),
            ),
        decreases w - x,
    {
        proof {
            assert(h * 0xffff_ffff_ffff_ffff <= 0xffff_ffff_ffff_ffff * 0xffff_ffff_ffff_ffff)
                by (nonlinear_arith)
                requires
                    h <= 0xffff_ffff_ffff_ffff,
            ;
            lemma_dp_row(e@, (h - 1) as nat);
            assert(((h - 1) as nat + 1) == h);
            assert(last[x as int] <= h * 0xffff_ffff_ffff_ffff);
        }
        let mut total: u128 = 0;
        let mut pixels: Vec<usize> = Vec::new();
        let mut cx: usize = x;
        let mut cy: usize = h - 1;
        // Walk up from the end column, summing energies; give up on this
        // column as soon as the partial sum exceeds the best total so far.
        let mut pruned = false;
        loop
            invariant_except_break
                !pruned,
                total + dp_row(e@, cy as nat)[cx as int] == last[x as int],
                trace(e@, x as int, (h - 1) as nat) == trace(e@, cx as int, cy as nat) + reversed(
                    seam_cols(pixels@),
                ),
            invariant
                e@.wf(),
                w == e@.width,
                h == e@.height,
                t@.wf(),
                t@.width == w,
                t@.height == h,
                forall|i: int, j: int| t@.in_bounds(i, j) ==> dp_cell_ok(e@, #[trigger] t@.at(i, j), i, j),
                last == dp_row(e@, (h - 1) as nat),
                last.len() == w,
                x < w,
                cx < w,
                cy < h,
                last[x as int] <= 0xffff_ffff_ffff_ffff_ffff_ffff_ffff_ffffu128,
            ensures
                pruned ==> have_best && total > best_cost && total <= last[x as int],
                !pruned ==> total == last[x as int] && trace(e@, x as int, (h - 1) as nat)
                    == reversed(seam_cols(pixels@)),
            decreases cy,
        {
            let ghost old_pixels = pixels@;
            proof {
                lemma_dp_row(e@, cy as nat);
            }
            let cell = t.at(cx, cy);
            assert(dp_cell_ok(e@, cell, cx as int, cy as int));
            total = total + e.at(cx, cy) as u128;
            if have_best && total > best_cost {
                pruned = true;
                break;
            }
            pixels.push(cx);
            assert(reversed(seam_cols(pixels@)) =~= seq![cx as int] + reversed(
                seam_cols(old_pixels),
            ));
            match cell.dir {
                None => {
                    assert(cy == 0);
                    assert(trace(e@, cx as int, 0) == seq![cx as int]);
                    assert(trace(e@, x as int, (h - 1) as nat) =~= reversed(seam_cols(pixels@)));
                    break;
                },
                Some(d) => {
                    let ghost prev = dp_row(e@, (cy - 1) as nat);
                    proof {
                        lemma_dp_row(e@, (cy - 1) as nat);
                        lemma_dir_in_range(prev, cx as int);
                    }
                    let ghost ocx = cx;
                    cx = match d {
                        Direction::Left => cx - 1,
                        Direction::Right => cx + 1,
                        Direction::Up => cx,
                    };
                    cy = cy - 1;
                    assert(cx == pred_col(prev, ocx as int));
                    assert(trace(e@, ocx as int, (cy + 1) as nat) == trace(e@, cx as int, cy as nat).push(
                        ocx as int,
                    ));
                    assert(trace(e@, x as int, (h - 1) as nat) =~= trace(e@, cx as int, cy as nat)
                        + reversed(seam_cols(pixels@)));
                },
            }
        }
        proof {
            lemma_leftmost_min(last, (x + 1) as nat);
            if x > 0 {
                lemma_leftmost_min(last, x as nat);
            }
        }
        if !pruned && (!have_best || total < best_cost) {
            best_cost = total;
            best_pixels = pixels;
            have_best = true;
        }
        x = x + 1;
    }
    let n = best_pixels.len();
    let mut seam: Vec<usize> = Vec::new();
    let mut k: usize = 0;
    while k < n
        invariant
            n == best_pixels@.len(),
            k <= n,
            seam@.len() == k,
            forall|i: int| 0 <= i < k ==> seam@[i] == best_pixels@[n - 1 - i],
        decreases n - k,
    {
        seam.push(best_pixels[n - 1 - k]);
        k = k + 1;
    }
    assert(seam_cols(seam@) =~= reversed(seam_cols(best_pixels@)));
    proof {
        let ghost b = best_end(e@);
        lemma_leftmost_min(last, w as nat);
        lemma_trace(e@, b, (h - 1) as nat);
        lemma_trace_energy(e@, b, (h - 1) as nat);
        assert forall|q: Seq<int>| is_seam(q, e@.width, e@.height) implies best_cost
            <= seam_energy(e@, q) by {
            lemma_best_end_optimal(e@, q);
        }
    }
    Ok((best_cost, seam))
}

} // verus!
