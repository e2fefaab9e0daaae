//! Scanning rays of cells along one of the four board axes.
//!
//! `run_toward` counts the contiguous same-content cells strictly beyond a
//! coordinate in one direction; `crowd_toward` does the same for occupied
//! cells of either colour; `open_toward` asks whether the first cell past a
//! run is empty. The executable scanners mirror these definitions.

use vstd::prelude::*;

verus! {

use crate::board::{board_wf, cell_at, in_bounds, BOARD_SIZE};
use crate::board::Board;
use crate::types::Cell;

/// A unit step along one of the eight ray directions.
pub open spec fn valid_dir(dx: int, dy: int) -> bool {
    -1 <= dx <= 1 && -1 <= dy <= 1 && !(dx == 0 && dy == 0)
}

/// Steps remaining before a walk along one axis leaves the board.
pub open spec fn axis_fuel(p: int, d: int) -> int {
    if d > 0 {
        15 - p
    } else if d < 0 {
        p + 1
    } else {
        16
    }
}

/// Steps remaining before a walk leaves the board in either axis.
pub open spec fn ray_fuel(x: int, y: int, dx: int, dy: int) -> int {
    if axis_fuel(x, dx) <= axis_fuel(y, dy) {
        axis_fuel(x, dx)
    } else {
        axis_fuel(y, dy)
    }
}

/// Number of contiguous cells equal to `c` strictly beyond `(x, y)` in
/// direction `(dx, dy)`.
pub open spec fn run_toward(b: Seq<Cell>, x: int, y: int, dx: int, dy: int, c: Cell) -> nat
    decreases ray_fuel(x, y, dx, dy),
{
    if dx == 0 && dy == 0 {
        0
    } else if !in_bounds(x + dx, y + dy) || cell_at(b, x + dx, y + dy) != c {
        0
    } else {
        1 + run_toward(b, x + dx, y + dy, dx, dy, c)
    }
}

/// Number of contiguous occupied cells strictly beyond `(x, y)` in direction
/// `(dx, dy)`, regardless of their colour.
pub open spec fn crowd_toward(b: Seq<Cell>, x: int, y: int, dx: int, dy: int) -> nat
    decreases ray_fuel(x, y, dx, dy),
{
    if dx == 0 && dy == 0 {
        0
    } else if !in_bounds(x + dx, y + dy) || cell_at(b, x + dx, y + dy) == Cell::Empty {
        0
    } else {
        1 + crowd_toward(b, x + dx, y + dy, dx, dy)
    }
}

/// Whether the first cell past the run of `c` beyond `(x, y)` in direction
/// `(dx, dy)` is on the board and empty.
pub open spec fn open_toward(b: Seq<Cell>, x: int, y: int, dx: int, dy: int, c: Cell) -> bool {
    let n = run_toward(b, x, y, dx, dy, c) as int;
    in_bounds(x + (n + 1) * dx, y + (n + 1) * dy) && cell_at(
        b,
        x + (n + 1) * dx,
        y + (n + 1) * dy,
    ) == Cell::Empty
}

/// Total stones of the run of `c` through `(x, y)` along the axis `(dx, dy)`,
/// the cell itself included.
pub open spec fn line_count(b: Seq<Cell>, x: int, y: int, dx: int, dy: int, c: Cell) -> int {
    1 + run_toward(b, x, y, dx, dy, c) as int + run_toward(b, x, y, -dx, -dy, c) as int
}

/// A run started within one step of the board never exceeds 16 cells.
pub proof fn lemma_run_toward_bound(b: Seq<Cell>, x: int, y: int, dx: int, dy: int, c: Cell)
    requires
        -1 <= x <= 15,
        -1 <= y <= 15,
        valid_dir(dx, dy),
    ensures
        run_toward(b, x, y, dx, dy, c) <= 16,
{
    lemma_run_le_fuel(b, x, y, dx, dy, c);
}

/// A run is bounded by the fuel of its ray.
pub proof fn lemma_run_le_fuel(b: Seq<Cell>, x: int, y: int, dx: int, dy: int, c: Cell)
    requires
        -1 <= x <= 15,
        -1 <= y <= 15,
        valid_dir(dx, dy),
    ensures
        run_toward(b, x, y, dx, dy, c) <= ray_fuel(x, y, dx, dy),
    decreases ray_fuel(x, y, dx, dy),
{
    if in_bounds(x + dx, y + dy) && cell_at(b, x + dx, y + dy) == c {
        lemma_run_le_fuel(b, x + dx, y + dy, dx, dy, c);
    }
}

/// A crowd run is bounded by the fuel of its ray.
pub proof fn lemma_crowd_le_fuel(b: Seq<Cell>, x: int, y: int, dx: int, dy: int)
    requires
        -1 <= x <= 15,
        -1 <= y <= 15,
        valid_dir(dx, dy),
    ensures
        crowd_toward(b, x, y, dx, dy) <= ray_fuel(x, y, dx, dy),
    decreases ray_fuel(x, y, dx, dy),
{
    if in_bounds(x + dx, y + dy) && cell_at(b, x + dx, y + dy) != Cell::Empty {
        lemma_crowd_le_fuel(b, x + dx, y + dy, dx, dy);
    }
}

/// Every cell inside a run lies on the board and holds `c`.
pub proof fn lemma_run_cells(b: Seq<Cell>, x: int, y: int, dx: int, dy: int, c: Cell)
    requires
        valid_dir(dx, dy),
    ensures
        forall|k: int|
            1 <= k <= run_toward(b, x, y, dx, dy, c) ==> in_bounds(x + k * dx, y + k * dy)
                && #[trigger] cell_at(b, x + k * dx, y + k * dy) == c,
    decreases ray_fuel(x, y, dx, dy),
{
    if in_bounds(x + dx, y + dy) && cell_at(b, x + dx, y + dy) == c {
        lemma_run_cells(b, x + dx, y + dy, dx, dy, c);
        assert forall|k: int|
            1 <= k <= run_toward(b, x, y, dx, dy, c) implies in_bounds(x + k * dx, y + k * dy)
            && #[trigger] cell_at(b, x + k * dx, y + k * dy) == c by {
            if k >= 2 {
                assert(1 <= k - 1 <= run_toward(b, x + dx, y + dy, dx, dy, c));
                assert(x + k * dx == (x + dx) + (k - 1) * dx) by (nonlinear_arith);
                assert(y + k * dy == (y + dy) + (k - 1) * dy) by (nonlinear_arith);
            } else {
                assert(x + 1 * dx == x + dx) by (nonlinear_arith);
                assert(y + 1 * dy == y + dy) by (nonlinear_arith);
            }
        }
    } else {
        assert forall|k: int|
            1 <= k <= run_toward(b, x, y, dx, dy, c) implies in_bounds(x + k * dx, y + k * dy)
            && #[trigger] cell_at(b, x + k * dx, y + k * dy) == c by {
        }
    }
}

impl Board {
    /// Walks from `(x, y)` in direction `(dx, dy)`, returning the run length
    /// of `target` beyond the start and whether the cell past the run is
    /// empty.
    pub(crate) fn scan_run(&self, x: i32, y: i32, dx: i32, dy: i32, target: Cell) -> (r: (
        usize,
        bool,
    ))
        requires
            board_wf(self@),
            -1 <= x as int <= 15,
            -1 <= y as int <= 15,
            valid_dir(dx as int, dy as int),
        ensures
            r.0 == run_toward(self@, x as int, y as int, dx as int, dy as int, target),
            r.1 == open_toward(self@, x as int, y as int, dx as int, dy as int, target),
        decreases ray_fuel(x as int, y as int, dx as int, dy as int),
    {
        let nx = x + dx;
        let ny = y + dy;
        if nx < 0 || nx >= BOARD_SIZE as i32 || ny < 0 || ny >= BOARD_SIZE as i32 {
            return (0, false);
        }
        let cell = match self.get(nx as usize, ny as usize) {
            Ok(c) => c,
            Err(_) => {
                proof {
                    assert(false);
                }
                Cell::Empty
            },
        };
        if cell == target {
            let (n, open) = self.scan_run(nx, ny, dx, dy, target);
            proof {
                lemma_run_toward_bound(self@, x as int, y as int, dx as int, dy as int, target);
                let m = run_toward(self@, nx as int, ny as int, dx as int, dy as int, target)
                    as int;
                assert(x + (m + 2) * dx == (x + dx) + (m + 1) * dx) by (nonlinear_arith);
                assert(y + (m + 2) * dy == (y + dy) + (m + 1) * dy) by (nonlinear_arith);
            }
            (n + 1, open)
        } else {
            proof {
                assert(x + 1 * dx == x + dx) by (nonlinear_arith);
                assert(y + 1 * dy == y + dy) by (nonlinear_arith);
            }
            (0, cell == Cell::Empty)
        }
    }

    /// Walks from `(x, y)` in direction `(dx, dy)`, returning how many
    /// contiguous occupied cells lie beyond the start.
    pub(crate) fn scan_crowd(&self, x: i32, y: i32, dx: i32, dy: i32) -> (n: usize)
        requires
            board_wf(self@),
            -1 <= x as int <= 15,
            -1 <= y as int <= 15,
            valid_dir(dx as int, dy as int),
        ensures
            n == crowd_toward(self@, x as int, y as int, dx as int, dy as int),
            n <= 16,
        decreases ray_fuel(x as int, y as int, dx as int, dy as int),
    {
        let nx = x + dx;
        let ny = y + dy;
        if nx < 0 || nx >= BOARD_SIZE as i32 || ny < 0 || ny >= BOARD_SIZE as i32 {
            return 0;
        }
        let cell = match self.get(nx as usize, ny as usize) {
            Ok(c) => c,
            Err(_) => {
                proof {
                    assert(false);
                }
                Cell::Empty
            },
        };
        if cell != Cell::Empty {
            let n = self.scan_crowd(nx, ny, dx, dy);
            proof {
                lemma_crowd_le_fuel(self@, nx as int, ny as int, dx as int, dy as int);
            }
            n + 1
        } else {
            0
        }
    }
}

} // verus!
