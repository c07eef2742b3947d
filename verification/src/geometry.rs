//! Board geometry: dimensions, diagonal relations between cell indices, and
//! enumeration of the cells a bishop can see from a given center.
//!
//! Cells are numbered row-major: index `i` lies in row `i / cols` and column
//! `i % cols`.

use vstd::prelude::*;
use vstd::arithmetic::div_mod::{lemma_fundamental_div_mod, lemma_fundamental_div_mod_converse};
use vstd::seq_lib::lemma_seq_contains_after_push;

verus! {

/// Board dimensions, fixed for a whole game.
#[derive(Copy, Clone)]
pub struct Dimensions {
    pub rows: usize,
    pub cols: usize,
}

impl Dimensions {
    /// Dimensions the solver accepts: at least one row, at least two columns
    /// (each row of the starting layout holds one piece of either side on
    /// distinct cells), and few enough cells that the 2-bit-per-cell board
    /// hash is injective within 64 bits.
    pub open spec fn valid(self) -> bool {
        &&& 1 <= self.rows
        &&& 2 <= self.cols
        &&& self.rows * self.cols <= 32
    }

    /// Number of cells of the board.
    pub open spec fn cells(self) -> int {
        self.rows * self.cols
    }
}

/// Row of cell `i`.
pub open spec fn row_of(cols: int, i: int) -> int {
    i / cols
}

/// Column of cell `i`.
pub open spec fn col_of(cols: int, i: int) -> int {
    i % cols
}

/// `i` and `j` lie on one down-right diagonal: column minus row is equal.
pub open spec fn on_down_diag(cols: int, i: int, j: int) -> bool {
    col_of(cols, i) - row_of(cols, i) == col_of(cols, j) - row_of(cols, j)
}

/// `i` and `j` lie on one up-right anti-diagonal: column plus row is equal.
pub open spec fn on_anti_diag(cols: int, i: int, j: int) -> bool {
    col_of(cols, i) + row_of(cols, i) == col_of(cols, j) + row_of(cols, j)
}

/// Distinct cells connected by a single diagonal ray (a bishop line,
/// ignoring anything standing in between).
pub open spec fn diag_related(cols: int, i: int, j: int) -> bool {
    i != j && (on_down_diag(cols, i, j) || on_anti_diag(cols, i, j))
}

/// A cell index decomposes into its row and column, both in range.
pub proof fn lemma_cell_coords(cols: int, rows: int, i: int)
    requires
        1 <= rows,
        1 <= cols,
        0 <= i < rows * cols,
    ensures
        0 <= col_of(cols, i) < cols,
        0 <= row_of(cols, i) < rows,
        i == row_of(cols, i) * cols + col_of(cols, i),
{
    lemma_fundamental_div_mod(i, cols);
    assert(cols * (i / cols) == (i / cols) * cols) by (nonlinear_arith);
    assert(0 <= i % cols < cols) by (nonlinear_arith)
        requires 1 <= cols, 0 <= i;
    assert(i / cols < rows) by (nonlinear_arith)
        requires 1 <= cols, 0 <= i, i < rows * cols;
    assert(i / cols >= 0) by (nonlinear_arith)
        requires 1 <= cols, 0 <= i;
}

/// Conversely, a row and a column in range name one cell of the board.
pub proof fn lemma_coords_cell(cols: int, rows: int, x: int, y: int)
    requires
        1 <= rows,
        1 <= cols,
        0 <= x < cols,
        0 <= y < rows,
    ensures
        0 <= y * cols + x < rows * cols,
        col_of(cols, y * cols + x) == x,
        row_of(cols, y * cols + x) == y,
{
    lemma_fundamental_div_mod_converse(y * cols + x, cols, y, x);
    assert(0 <= y * cols + x < rows * cols) by (nonlinear_arith)
        requires 1 <= cols, 0 <= x < cols, 0 <= y < rows;
}

/// Two cells on a common down-diagonal and a common anti-diagonal coincide.
pub proof fn lemma_families_meet(cols: int, rows: int, i: int, j: int)
    requires
        1 <= rows,
        1 <= cols,
        0 <= i < rows * cols,
        0 <= j < rows * cols,
        on_down_diag(cols, i, j),
        on_anti_diag(cols, i, j),
    ensures
        i == j,
{
    lemma_cell_coords(cols, rows, i);
    lemma_cell_coords(cols, rows, j);
}

/// Valid dimensions keep rows and cols themselves small.
pub proof fn lemma_valid_dims_small(dim: Dimensions)
    requires
        dim.valid(),
    ensures
        dim.rows <= 32,
        dim.cols <= 32,
        dim.rows <= dim.cells(),
        dim.cols <= dim.cells(),
{
    assert(dim.rows <= dim.rows * dim.cols && dim.cols <= dim.rows * dim.cols)
        by (nonlinear_arith)
        requires 1 <= dim.rows, 1 <= dim.cols;
}

/// Holds of a `targets` list and a cell `j` of the board: `j` is listed
/// exactly when it lies on the down-right diagonal through `center`, apart
/// from `center` itself.
pub open spec fn lists_down_diag(ts: Seq<usize>, cols: int, center: int, j: usize) -> bool {
    ts.contains(j) <==> on_down_diag(cols, center, j as int) && j as int != center
}

/// As `lists_down_diag`, for both diagonal families together.
pub open spec fn lists_diag(ts: Seq<usize>, cols: int, center: int, j: usize) -> bool {
    ts.contains(j) <==> diag_related(cols, center, j as int)
}

/// Appends every cell of the down-right diagonal through `center` (column
/// minus row constant), clipped at the board edge, excluding `center`.
#[verifier::rlimit(60)]
fn push_down_diag(dim: &Dimensions, center: usize, targets: &mut Vec<usize>)
    requires
        dim.valid(),
        center < dim.cells(),
        old(targets)@ == Seq::<usize>::empty(),
    ensures
        forall|j: usize| (j as int) < dim.cells()
            ==> #[trigger] lists_down_diag(final(targets)@, dim.cols as int, center as int, j),
        forall|k: int| 0 <= k < final(targets)@.len() ==> (final(targets)@[k] as int) < dim.cells(),
        forall|k: int| 0 <= k < final(targets)@.len()
            ==> on_down_diag(dim.cols as int, center as int,
                    (#[trigger] final(targets)@[k]) as int)
                && final(targets)@[k] != center,
        forall|k1: int, k2: int| 0 <= k1 < k2 < final(targets)@.len()
            ==> (#[trigger] final(targets)@[k1]) < (#[trigger] final(targets)@[k2]),
{
    broadcast use lemma_seq_contains_after_push;

    let cols = dim.cols;
    let rows = dim.rows;
    proof {
        lemma_valid_dims_small(*dim);
        lemma_cell_coords(cols as int, rows as int, center as int);
    }
    let cx = center % cols;
    let cy = center / cols;
    let last_col = cols - 1;
    let last_row = rows - 1;
    let ghost ci = center as int;
    let ghost icols = cols as int;

    let start_x = if cx >= cy { cx - cy } else { 0 };
    let start_y = if cy >= cx { cy - cx } else { 0 };
    let reach = cx + (last_row - cy);
    let end_x = if reach <= last_col { reach } else { last_col };
    let mut x = start_x;
    let mut y = start_y;
    proof {
        assert(start_y * icols <= (rows - 1) * icols < rows as int * icols)
            by (nonlinear_arith)
            requires 1 <= icols, 0 <= start_y <= rows - 1;
    }
    let mut idx = start_y * cols + start_x;
    assert forall|j: usize| (j as int) < dim.cells()
        implies (targets@.contains(j)
            <==> on_down_diag(icols, ci, j as int) && j as int != ci
                && col_of(icols, j as int) < x) by {
        lemma_cell_coords(icols, rows as int, j as int);
    }
    while x <= end_x
        invariant
            x - y == cx - cy,
            start_x <= x <= end_x + 1,
            idx == y * icols + x,
            forall|j: usize| #![trigger targets@.contains(j)] (j as int) < dim.cells()
                ==> (targets@.contains(j)
                    <==> on_down_diag(icols, ci, j as int) && j as int != ci
                        && col_of(icols, j as int) < x),
            forall|k: int| 0 <= k < targets@.len() ==> (targets@[k] as int) < dim.cells(),
            forall|k: int| 0 <= k < targets@.len()
                ==> on_down_diag(icols, ci, (#[trigger] targets@[k]) as int)
                    && targets@[k] != center,
            forall|k: int| 0 <= k < targets@.len() ==> ((#[trigger] targets@[k]) as int) < idx,
            forall|k1: int, k2: int| 0 <= k1 < k2 < targets@.len()
                ==> (#[trigger] targets@[k1]) < (#[trigger] targets@[k2]),
        decreases end_x + 1 - x,
    {
        proof {
            lemma_coords_cell(icols, rows as int, x as int, y as int);
        }
        let ghost old_targets = targets@;
        if idx != center {
            targets.push(idx);
        }
        assert forall|j: usize| (j as int) < dim.cells()
            implies (targets@.contains(j)
                <==> on_down_diag(icols, ci, j as int) && j as int != ci
                    && col_of(icols, j as int) < x + 1) by {
            lemma_cell_coords(icols, rows as int, j as int);
            assert(targets@.contains(j) ==> old_targets.contains(j) || j == idx);
            assert(old_targets.contains(j)
                ==> on_down_diag(icols, ci, j as int) && j as int != ci
                    && col_of(icols, j as int) < x);
        }
        proof {
            assert((y + 1) * icols == y * icols + icols) by (nonlinear_arith);
        }
        x = x + 1;
        y = y + 1;
        idx = idx + cols + 1;
    }
    assert forall|j: usize| (j as int) < dim.cells()
        implies #[trigger] lists_down_diag(targets@, icols, ci, j) by {
        lemma_cell_coords(icols, rows as int, j as int);
        assert(targets@.contains(j)
            ==> on_down_diag(icols, ci, j as int) && j as int != ci);
    }
}

/// Appends every cell of the up-right anti-diagonal through `center` (column
/// plus row constant), clipped at the board edge, excluding `center`.
#[verifier::rlimit(60)]
fn push_anti_diag(dim: &Dimensions, center: usize, targets: &mut Vec<usize>)
    requires
        dim.valid(),
        center < dim.cells(),
        forall|j: usize| (j as int) < dim.cells()
            ==> #[trigger] lists_down_diag(old(targets)@, dim.cols as int, center as int, j),
        forall|k: int| 0 <= k < old(targets)@.len() ==> (old(targets)@[k] as int) < dim.cells(),
    ensures
        forall|j: usize| (j as int) < dim.cells()
            ==> #[trigger] lists_diag(final(targets)@, dim.cols as int, center as int, j),
        forall|k: int| 0 <= k < final(targets)@.len() ==> (final(targets)@[k] as int) < dim.cells(),
        final(targets)@.len() >= old(targets)@.len(),
        final(targets)@.subrange(0, old(targets)@.len() as int) == old(targets)@,
        forall|k: int| old(targets)@.len() <= k < final(targets)@.len()
            ==> on_anti_diag(dim.cols as int, center as int,
                    (#[trigger] final(targets)@[k]) as int)
                && final(targets)@[k] != center,
        forall|k1: int, k2: int| old(targets)@.len() <= k1 < k2 < final(targets)@.len()
            ==> (#[trigger] final(targets)@[k1]) < (#[trigger] final(targets)@[k2]),
{
    broadcast use lemma_seq_contains_after_push;

    let cols = dim.cols;
    let rows = dim.rows;
    proof {
        lemma_valid_dims_small(*dim);
        lemma_cell_coords(cols as int, rows as int, center as int);
    }
    let cx = center % cols;
    let cy = center / cols;
    let last_col = cols - 1;
    let last_row = rows - 1;
    let ghost ci = center as int;
    let ghost icols = cols as int;

    let s = cx + cy;
    let y_lo = if s > last_col { s - last_col } else { 0 };
    let y_hi = if s < last_row { s } else { last_row };
    let mut ay = y_lo;
    proof {
        assert(y_lo * icols <= (rows - 1) * icols < rows as int * icols)
            by (nonlinear_arith)
            requires 1 <= icols, 0 <= y_lo <= rows - 1;
        assert(y_lo * icols + (s - y_lo) == y_lo * (icols - 1) + s)
            by (nonlinear_arith);
    }
    let ghost n0 = old(targets)@.len() as int;
    let mut aidx = y_lo * cols + (s - y_lo);
    assert forall|j: usize| #![trigger targets@.contains(j)] (j as int) < dim.cells()
        implies (targets@.contains(j)
            <==> (j as int != ci && (on_down_diag(icols, ci, j as int)
                || (on_anti_diag(icols, ci, j as int)
                    && row_of(icols, j as int) < ay)))) by {
        lemma_cell_coords(icols, rows as int, j as int);
        assert(lists_down_diag(targets@, icols, ci, j));
    }
    while ay <= y_hi
        invariant
            y_lo <= ay <= y_hi + 1,
            aidx == ay * (icols - 1) + s,
            forall|j: usize| #![trigger targets@.contains(j)] (j as int) < dim.cells()
                ==> (targets@.contains(j)
                    <==> (j as int != ci && (on_down_diag(icols, ci, j as int)
                        || (on_anti_diag(icols, ci, j as int)
                            && row_of(icols, j as int) < ay)))),
            forall|k: int| 0 <= k < targets@.len() ==> (targets@[k] as int) < dim.cells(),
            n0 <= targets@.len(),
            targets@.subrange(0, n0) == old(targets)@,
            forall|k: int| n0 <= k < targets@.len()
                ==> on_anti_diag(icols, ci, (#[trigger] targets@[k]) as int)
                    && targets@[k] != center,
            forall|k: int| n0 <= k < targets@.len()
                ==> ((#[trigger] targets@[k]) as int) < aidx,
            forall|k1: int, k2: int| n0 <= k1 < k2 < targets@.len()
                ==> (#[trigger] targets@[k1]) < (#[trigger] targets@[k2]),
        decreases y_hi + 1 - ay,
    {
        let ax = s - ay;
        proof {
            lemma_coords_cell(icols, rows as int, ax as int, ay as int);
            assert(ay * (icols - 1) == ay * icols - ay) by (nonlinear_arith);
            assert(aidx == ay * icols + ax);
            if aidx as int != ci && on_down_diag(icols, ci, aidx as int) {
                lemma_families_meet(icols, rows as int, ci, aidx as int);
            }
        }
        let ghost old_targets = targets@;
        if aidx != center {
            targets.push(aidx);
            proof {
                assert(targets@.subrange(0, n0) =~= old_targets.subrange(0, n0));
            }
        }
        assert forall|j: usize| (j as int) < dim.cells()
            implies (targets@.contains(j)
                <==> (j as int != ci && (on_down_diag(icols, ci, j as int)
                    || (on_anti_diag(icols, ci, j as int)
                        && row_of(icols, j as int) < ay + 1)))) by {
            lemma_cell_coords(icols, rows as int, j as int);
            assert(targets@.contains(j) ==> old_targets.contains(j) || j == aidx);
            assert(old_targets.contains(j)
                ==> (j as int != ci && (on_down_diag(icols, ci, j as int)
                    || (on_anti_diag(icols, ci, j as int)
                        && row_of(icols, j as int) < ay))));
        }
        proof {
            assert((ay + 1) * (icols - 1) == ay * (icols - 1) + icols - 1)
                by (nonlinear_arith);
        }
        ay = ay + 1;
        aidx = aidx + cols - 1;
    }
    assert forall|j: usize| (j as int) < dim.cells()
        implies #[trigger] lists_diag(targets@, icols, ci, j) by {
        lemma_cell_coords(icols, rows as int, j as int);
        assert(targets@.contains(j)
            ==> (j as int != ci && (on_down_diag(icols, ci, j as int)
                || on_anti_diag(icols, ci, j as int))));
    }
}

/// Every cell a single bishop ray from `center` reaches, clipped at the board
/// edge: exactly the cells sharing a diagonal with `center`, the center
/// itself excluded, each cell exactly once: the down-right diagonal first,
/// then the anti-diagonal, each in ascending index order.  Occupancy is not
/// consulted here; blocking is a separate legality check.
pub fn bishop_for_each(dim: &Dimensions, center: usize) -> (targets: Vec<usize>)
    requires
        dim.valid(),
        center < dim.cells(),
    ensures
        forall|j: usize| (j as int) < dim.cells()
            ==> (#[trigger] targets@.contains(j)
                <==> diag_related(dim.cols as int, center as int, j as int)),
        forall|k: int| 0 <= k < targets@.len() ==> (targets@[k] as int) < dim.cells(),
        forall|k1: int, k2: int| 0 <= k1 < k2 < targets@.len()
            ==> (#[trigger] targets@[k1]) != (#[trigger] targets@[k2]),
        forall|k1: int, k2: int| 0 <= k1 < k2 < targets@.len()
            && on_anti_diag(dim.cols as int, center as int, (#[trigger] targets@[k1]) as int)
            ==> on_anti_diag(dim.cols as int, center as int, (#[trigger] targets@[k2]) as int),
        forall|k1: int, k2: int| 0 <= k1 < k2 < targets@.len()
            && on_down_diag(dim.cols as int, center as int, (#[trigger] targets@[k1]) as int)
            && on_down_diag(dim.cols as int, center as int, (#[trigger] targets@[k2]) as int)
            ==> targets@[k1] < targets@[k2],
        forall|k1: int, k2: int| 0 <= k1 < k2 < targets@.len()
            && on_anti_diag(dim.cols as int, center as int, (#[trigger] targets@[k1]) as int)
            && on_anti_diag(dim.cols as int, center as int, (#[trigger] targets@[k2]) as int)
            ==> targets@[k1] < targets@[k2],
{
    let ghost icols = dim.cols as int;
    let ghost ci = center as int;
    let mut targets: Vec<usize> = Vec::new();
    push_down_diag(dim, center, &mut targets);
    let ghost down = targets@;
    push_anti_diag(dim, center, &mut targets);
    assert forall|j: usize| (j as int) < dim.cells()
        implies (#[trigger] targets@.contains(j)
            <==> diag_related(icols, ci, j as int)) by {
        assert(lists_diag(targets@, icols, ci, j));
    }
    proof {
        lemma_valid_dims_small(*dim);
        // The two segments: down-diagonal cells first, then anti-diagonal
        // cells, and a non-center cell is never on both diagonals at once.
        assert forall|k: int| 0 <= k < targets@.len()
            implies ((k < down.len()
                ==> on_down_diag(icols, ci, (#[trigger] targets@[k]) as int)
                    && !on_anti_diag(icols, ci, targets@[k] as int))
            && (k >= down.len()
                ==> on_anti_diag(icols, ci, targets@[k] as int)
                    && !on_down_diag(icols, ci, targets@[k] as int))) by {
            if k < down.len() {
                assert(targets@.subrange(0, down.len() as int)[k] == targets@[k]);
                assert(targets@[k] == down[k]);
            }
            if on_down_diag(icols, ci, targets@[k] as int)
                && on_anti_diag(icols, ci, targets@[k] as int) {
                lemma_families_meet(icols, dim.rows as int, ci, targets@[k] as int);
            }
        }
        assert forall|k1: int, k2: int| 0 <= k1 < k2 < targets@.len()
            && on_down_diag(icols, ci, (#[trigger] targets@[k1]) as int)
            && on_down_diag(icols, ci, (#[trigger] targets@[k2]) as int)
            implies targets@[k1] < targets@[k2] by {
            assert(k1 < down.len() && k2 < down.len());
            assert(targets@.subrange(0, down.len() as int)[k1] == targets@[k1]);
            assert(targets@.subrange(0, down.len() as int)[k2] == targets@[k2]);
            assert(targets@[k1] == down[k1] && targets@[k2] == down[k2]);
        }
        assert forall|k1: int, k2: int| 0 <= k1 < k2 < targets@.len()
            implies (#[trigger] targets@[k1]) != (#[trigger] targets@[k2]) by {
            if k1 < down.len() && k2 < down.len() {
                assert(targets@.subrange(0, down.len() as int)[k1] == targets@[k1]);
                assert(targets@.subrange(0, down.len() as int)[k2] == targets@[k2]);
                assert(targets@[k1] == down[k1] && targets@[k2] == down[k2]);
            }
        }
    }
    targets
}

/// Length of one unit step along the diagonal family shared by `i` and `j`:
/// `cols + 1` on a down-right diagonal, `cols - 1` on an anti-diagonal.
pub open spec fn ray_step(cols: int, i: int, j: int) -> int {
    if on_down_diag(cols, i, j) { cols + 1 } else { cols - 1 }
}

/// The index offset that one step from `from` toward `to` adds, sign included.
pub open spec fn unit_delta(cols: int, from: int, to: int) -> int {
    if to > from { ray_step(cols, from, to) } else { -ray_step(cols, from, to) }
}

/// How many unit steps lead from `from` to `to` along their shared diagonal.
pub open spec fn ray_len(cols: int, from: int, to: int) -> int {
    (if to >= from { to - from } else { from - to }) / ray_step(cols, from, to)
}

/// The cell reached after `t` unit steps from `from` toward `to`.
pub open spec fn ray_cell(cols: int, from: int, to: int, t: int) -> int {
    from + t * unit_delta(cols, from, to)
}

/// Walking from `from` toward `to` along the shared diagonal takes at least
/// one step, stays on the board, reaches `to` exactly at step `ray_len`, and
/// the step count is the row distance.
pub proof fn lemma_ray(cols: int, rows: int, from: int, to: int)
    requires
        1 <= rows,
        2 <= cols,
        0 <= from < rows * cols,
        0 <= to < rows * cols,
        diag_related(cols, from, to),
    ensures
        1 <= ray_len(cols, from, to),
        ray_len(cols, from, to) == (if row_of(cols, to) >= row_of(cols, from)
            { row_of(cols, to) - row_of(cols, from) }
            else { row_of(cols, from) - row_of(cols, to) }),
        forall|t: int| 0 <= t <= ray_len(cols, from, to)
            ==> 0 <= #[trigger] ray_cell(cols, from, to, t) < rows * cols,
        ray_cell(cols, from, to, ray_len(cols, from, to)) == to,
        forall|t: int| 0 <= t < ray_len(cols, from, to)
            ==> #[trigger] ray_cell(cols, from, to, t) != to,
{
    lemma_cell_coords(cols, rows, from);
    lemma_cell_coords(cols, rows, to);
    let rf = row_of(cols, from);
    let cf = col_of(cols, from);
    let rt = row_of(cols, to);
    let ct = col_of(cols, to);
    let k = if rt >= rf { rt - rf } else { rf - rt };
    let dist = if to >= from { to - from } else { from - to };
    if on_down_diag(cols, from, to) {
        assert(to - from == (rt - rf) * cols + (ct - cf)) by (nonlinear_arith)
            requires from == rf * cols + cf, to == rt * cols + ct;
        assert((rt - rf) * cols + (rt - rf) == (rt - rf) * (cols + 1)) by (nonlinear_arith);
        assert(to - from == (rt - rf) * (cols + 1));
        assert(rt != rf);
        assert((rt > rf ==> (rt - rf) * (cols + 1) > 0)
            && (rt < rf ==> (rt - rf) * (cols + 1) < 0)) by (nonlinear_arith)
            requires 2 <= cols;
        assert(dist == k * (cols + 1)) by (nonlinear_arith)
            requires to - from == (rt - rf) * (cols + 1),
                dist == (if to >= from { to - from } else { from - to }),
                k == (if rt >= rf { rt - rf } else { rf - rt }),
                2 <= cols;
        lemma_fundamental_div_mod_converse(dist, cols + 1, k, 0);
        assert(ray_len(cols, from, to) == k);
        assert forall|t: int| 0 <= t <= k
            implies 0 <= #[trigger] ray_cell(cols, from, to, t) < rows * cols
                && ray_cell(cols, from, to, t)
                    == (if rt >= rf { rf + t } else { rf - t }) * cols
                        + (if rt >= rf { cf + t } else { cf - t }) by {
            if rt >= rf {
                assert(ray_cell(cols, from, to, t) == from + t * (cols + 1));
                assert(from + t * (cols + 1) == (rf + t) * cols + (cf + t))
                    by (nonlinear_arith)
                    requires from == rf * cols + cf;
                lemma_coords_cell(cols, rows, cf + t, rf + t);
            } else {
                assert(ray_cell(cols, from, to, t) == from + t * (-(cols + 1)));
                assert(from + t * (-(cols + 1)) == (rf - t) * cols + (cf - t))
                    by (nonlinear_arith)
                    requires from == rf * cols + cf;
                lemma_coords_cell(cols, rows, cf - t, rf - t);
            }
        }
        assert(ray_cell(cols, from, to, k) == to) by (nonlinear_arith)
            requires to - from == (rt - rf) * (cols + 1),
                ray_cell(cols, from, to, k) == from + k * unit_delta(cols, from, to),
                unit_delta(cols, from, to) == (if to > from { cols + 1 } else { -(cols + 1) }),
                k == (if rt >= rf { rt - rf } else { rf - rt }),
                (rt > rf ==> to > from) && (rt < rf ==> to < from), rt != rf;
        assert forall|t: int| 0 <= t < k
            implies #[trigger] ray_cell(cols, from, to, t) != to by {
            assert(ray_cell(cols, from, to, t) != ray_cell(cols, from, to, k))
                by (nonlinear_arith)
                requires t != k,
                    ray_cell(cols, from, to, t) == from + t * unit_delta(cols, from, to),
                    ray_cell(cols, from, to, k) == from + k * unit_delta(cols, from, to),
                    unit_delta(cols, from, to) != 0;
        }
    } else {
        assert(on_anti_diag(cols, from, to));
        assert(to - from == (rt - rf) * cols + (ct - cf)) by (nonlinear_arith)
            requires from == rf * cols + cf, to == rt * cols + ct;
        assert(ct - cf == -(rt - rf));
        assert((rt - rf) * cols - (rt - rf) == (rt - rf) * (cols - 1)) by (nonlinear_arith);
        assert(to - from == (rt - rf) * (cols - 1));
        assert(rt != rf) by {
            if rt == rf {
                assert(ct == cf);
                lemma_families_meet(cols, rows, from, to);
            }
        }
        assert((rt > rf ==> (rt - rf) * (cols - 1) > 0)
            && (rt < rf ==> (rt - rf) * (cols - 1) < 0)) by (nonlinear_arith)
            requires 2 <= cols;
        assert(dist == k * (cols - 1)) by (nonlinear_arith)
            requires to - from == (rt - rf) * (cols - 1),
                dist == (if to >= from { to - from } else { from - to }),
                k == (if rt >= rf { rt - rf } else { rf - rt }),
                2 <= cols;
        lemma_fundamental_div_mod_converse(dist, cols - 1, k, 0);
        assert(ray_len(cols, from, to) == k);
        assert forall|t: int| 0 <= t <= k
            implies 0 <= #[trigger] ray_cell(cols, from, to, t) < rows * cols by {
            if rt >= rf {
                assert(to > from <==> rt > rf) by (nonlinear_arith)
                    requires to - from == (rt - rf) * (cols - 1), 2 <= cols;
                assert(ray_cell(cols, from, to, t) == from + t * (cols - 1));
                assert(from + t * (cols - 1) == (rf + t) * cols + (cf - t))
                    by (nonlinear_arith)
                    requires from == rf * cols + cf;
                lemma_coords_cell(cols, rows, cf - t, rf + t);
            } else {
                assert(to > from <==> rt > rf) by (nonlinear_arith)
                    requires to - from == (rt - rf) * (cols - 1), 2 <= cols;
                assert(ray_cell(cols, from, to, t) == from + t * (-(cols - 1)));
                assert(from + t * (-(cols - 1)) == (rf - t) * cols + (cf + t))
                    by (nonlinear_arith)
                    requires from == rf * cols + cf;
                lemma_coords_cell(cols, rows, cf + t, rf - t);
            }
        }
        assert(ray_cell(cols, from, to, k) == to) by (nonlinear_arith)
            requires to - from == (rt - rf) * (cols - 1),
                ray_cell(cols, from, to, k) == from + k * unit_delta(cols, from, to),
                unit_delta(cols, from, to) == (if to > from { cols - 1 } else { -(cols - 1) }),
                k == (if rt >= rf { rt - rf } else { rf - rt }),
                (rt > rf ==> to > from) && (rt < rf ==> to < from), rt != rf;
        assert forall|t: int| 0 <= t < k
            implies #[trigger] ray_cell(cols, from, to, t) != to by {
            assert(ray_cell(cols, from, to, t) != ray_cell(cols, from, to, k))
                by (nonlinear_arith)
                requires t != k,
                    ray_cell(cols, from, to, t) == from + t * unit_delta(cols, from, to),
                    ray_cell(cols, from, to, k) == from + k * unit_delta(cols, from, to),
                    unit_delta(cols, from, to) != 0;
        }
    }
}

/// The value to add to cell `i` to walk one diagonal step toward cell `j`.
pub fn bishop_delta(dim: &Dimensions, i: usize, j: usize) -> (delta: isize)
    requires
        dim.valid(),
        i < dim.cells(),
        j < dim.cells(),
        diag_related(dim.cols as int, i as int, j as int),
    ensures
        delta as int == unit_delta(dim.cols as int, i as int, j as int),
{
    proof {
        lemma_valid_dims_small(*dim);
        lemma_cell_coords(dim.cols as int, dim.rows as int, i as int);
        lemma_cell_coords(dim.cols as int, dim.rows as int, j as int);
    }
    let cols = dim.cols;
    let ri = i / cols;
    let ci = i % cols;
    let rj = j / cols;
    let cj = j % cols;
    let step = if ci + rj == cj + ri { cols + 1 } else { cols - 1 };
    if j > i {
        step as isize
    } else {
        -(step as isize)
    }
}

} // verus!
