//! Win and draw detection: the five-in-a-row line scanner used by the
//! surrounding game session after a real move is applied.

use vstd::prelude::*;

verus! {

use crate::board::{board_full, board_wf, cell_at, in_bounds};
use crate::board::Board;
use crate::line::{
    lemma_run_cells,
    lemma_run_toward_bound,
    line_count,
    run_toward,
    valid_dir,
};
use crate::types::{Cell, Position};

/// Stones of the line of the cell's own colour through `(x, y)` along the
/// axis `(dx, dy)`.
pub open spec fn line_through(b: Seq<Cell>, x: int, y: int, dx: int, dy: int) -> int {
    line_count(b, x, y, dx, dy, cell_at(b, x, y))
}

/// Whether the stone at `(x, y)` completes five or more in a row on some axis.
pub open spec fn has_five_at(b: Seq<Cell>, x: int, y: int) -> bool {
    in_bounds(x, y) && cell_at(b, x, y) != Cell::Empty && (line_through(b, x, y, 0, 1) >= 5
        || line_through(b, x, y, 1, 0) >= 5 || line_through(b, x, y, 1, 1) >= 5 || line_through(
        b,
        x,
        y,
        1,
        -1,
    ) >= 5)
}

/// The first axis, in the order horizontal, vertical, down-right diagonal,
/// down-left diagonal, on which the stone at `(x, y)` lies in a line of five.
pub open spec fn first_five_dir(b: Seq<Cell>, x: int, y: int) -> (int, int) {
    if line_through(b, x, y, 0, 1) >= 5 {
        (0int, 1int)
    } else if line_through(b, x, y, 1, 0) >= 5 {
        (1int, 0int)
    } else if line_through(b, x, y, 1, 1) >= 5 {
        (1int, 1int)
    } else {
        (1int, -1int)
    }
}

/// Turn-independent rule checks on a finished move.
pub struct RulesValidator;

impl RulesValidator {
    /// The full contiguous same-colour line through `pos` along `(dx, dy)`,
    /// listed from the backward end to the forward end.
    fn count_direction(board: &Board, pos: &Position, dx: i32, dy: i32, target: Cell) -> (r: Vec<
        Position,
    >)
        requires
            board_wf(board@),
            in_bounds(pos.x as int, pos.y as int),
            valid_dir(dx as int, dy as int),
        ensures
            r@.len() == line_count(board@, pos.x as int, pos.y as int, dx as int, dy as int, target),
            forall|i: int|
                0 <= i < r@.len() ==> {
                    let back = run_toward(
                        board@,
                        pos.x as int,
                        pos.y as int,
                        -(dx as int),
                        -(dy as int),
                        target,
                    ) as int;
                    #[trigger] r@[i] == (Position {
                        x: (pos.x + (i - back) * (dx as int)) as usize,
                        y: (pos.y + (i - back) * (dy as int)) as usize,
                    })
                },
    {
        let ghost b = board@;
        let ghost xi = pos.x as int;
        let ghost yi = pos.y as int;
        let (forward, _) = board.scan_run(pos.x as i32, pos.y as i32, dx, dy, target);
        let (backward, _) = board.scan_run(pos.x as i32, pos.y as i32, -dx, -dy, target);
        proof {
            lemma_run_toward_bound(b, xi, yi, dx as int, dy as int, target);
            lemma_run_toward_bound(b, xi, yi, -(dx as int), -(dy as int), target);
            lemma_run_cells(b, xi, yi, dx as int, dy as int, target);
            lemma_run_cells(b, xi, yi, -(dx as int), -(dy as int), target);
            assert forall|j: int|
                1 <= j <= run_toward(b, xi, yi, dx as int, dy as int, target)
                implies #[trigger] in_bounds(
                xi + j * (dx as int),
                yi + j * (dy as int),
            ) by {
                assert(cell_at(b, xi + j * (dx as int), yi + j * (dy as int)) == target);
            }
            assert forall|j: int|
                1 <= j <= run_toward(b, xi, yi, -(dx as int), -(dy as int), target)
                implies #[trigger] in_bounds(
                xi + j * (-(dx as int)),
                yi + j * (-(dy as int)),
            ) by {
                assert(cell_at(b, xi + j * (-(dx as int)), yi + j * (-(dy as int))) == target);
            }
        }
        let total = 1 + forward + backward;
        let mut line: Vec<Position> = Vec::new();
        let mut i: usize = 0;
        while i < total
            invariant
                board_wf(b),
                b == board@,
                xi == pos.x as int,
                yi == pos.y as int,
                in_bounds(xi, yi),
                valid_dir(dx as int, dy as int),
                -1 <= dx as int <= 1,
                -1 <= dy as int <= 1,
                forward == run_toward(b, xi, yi, dx as int, dy as int, target),
                backward == run_toward(b, xi, yi, -(dx as int), -(dy as int), target),
                forward <= 16,
                backward <= 16,
                total == 1 + forward + backward,
                i <= total,
                line@.len() == i,
                forall|j: int|
                    1 <= j <= forward ==> #[trigger] in_bounds(
                        xi + j * (dx as int),
                        yi + j * (dy as int),
                    ),
                forall|j: int|
                    1 <= j <= backward ==> #[trigger] in_bounds(
                        xi + j * (-(dx as int)),
                        yi + j * (-(dy as int)),
                    ),
                forall|j: int|
                    0 <= j < i ==> #[trigger] line@[j] == (Position {
                        x: (xi + (j - backward) * (dx as int)) as usize,
                        y: (yi + (j - backward) * (dy as int)) as usize,
                    }),
            decreases total - i,
        {
            proof {
                let ki = i as int - backward as int;
                assert(-16 <= ki <= 16);
                if ki < 0 {
                    assert(1 <= -ki <= backward);
                    assert(xi + (-ki) * (-(dx as int)) == xi + ki * (dx as int))
                        by (nonlinear_arith);
                    assert(yi + (-ki) * (-(dy as int)) == yi + ki * (dy as int))
                        by (nonlinear_arith);
                    assert(in_bounds(xi + ki * (dx as int), yi + ki * (dy as int)));
                } else if ki == 0 {
                    assert(xi + 0 * (dx as int) == xi) by (nonlinear_arith);
                    assert(yi + 0 * (dy as int) == yi) by (nonlinear_arith);
                } else {
                    assert(1 <= ki <= forward);
                    assert(in_bounds(xi + ki * (dx as int), yi + ki * (dy as int)));
                }
                assert(-16 <= ki * (dx as int) <= 16) by (nonlinear_arith)
                    requires
                        -16 <= ki <= 16,
                        -1 <= dx as int <= 1,
                ;
                assert(-16 <= ki * (dy as int) <= 16) by (nonlinear_arith)
                    requires
                        -16 <= ki <= 16,
                        -1 <= dy as int <= 1,
                ;
            }
            let k: i32 = i as i32 - backward as i32;
            let px: i32 = pos.x as i32 + k * dx;
            let py: i32 = pos.y as i32 + k * dy;
            line.push(
                Position { x: px as usize, y: py as usize },
            );
            i = i + 1;
        }
        line
    }

    /// The winning line through the given cell, if the stone there lies in
    /// five or more in a row on some axis; the first such axis is reported,
    /// in the order horizontal, vertical, down-right diagonal, down-left
    /// diagonal. Returns `None` for an empty or out-of-bounds cell.
    pub fn check_five_in_row(board: &Board, last_pos: &Position) -> (r: Option<Vec<Position>>)
        requires
            board_wf(board@),
        ensures
            r is Some <==> has_five_at(board@, last_pos.x as int, last_pos.y as int),
            r matches Some(line) ==> {
                let dir = first_five_dir(board@, last_pos.x as int, last_pos.y as int);
                &&& line@.len() == line_through(
                    board@,
                    last_pos.x as int,
                    last_pos.y as int,
                    dir.0,
                    dir.1,
                )
                &&& line@.len() >= 5
                &&& forall|i: int|
                    0 <= i < line@.len() ==> {
                        let back = run_toward(
                            board@,
                            last_pos.x as int,
                            last_pos.y as int,
                            -dir.0,
                            -dir.1,
                            cell_at(board@, last_pos.x as int, last_pos.y as int),
                        ) as int;
                        #[trigger] line@[i] == (Position {
                            x: (last_pos.x + (i - back) * dir.0) as usize,
                            y: (last_pos.y + (i - back) * dir.1) as usize,
                        })
                    }
            },
    {
        let player_cell = match board.get(last_pos.x, last_pos.y) {
            Ok(c) => c,
            Err(_) => {
                return None;
            },
        };
        if player_cell == Cell::Empty {
            return None;
        }
        let line = Self::count_direction(board, last_pos, 0, 1, player_cell);
        if line.len() >= 5 {
            return Some(line);
        }
        let line = Self::count_direction(board, last_pos, 1, 0, player_cell);
        if line.len() >= 5 {
            return Some(line);
        }
        let line = Self::count_direction(board, last_pos, 1, 1, player_cell);
        if line.len() >= 5 {
            return Some(line);
        }
        let line = Self::count_direction(board, last_pos, 1, -1, player_cell);
        if line.len() >= 5 {
            return Some(line);
        }
        None
    }

    /// Whether the game is drawn: the board is completely full. (Win
    /// detection is the caller's business, applied before this check.)
    pub fn is_draw(board: &Board) -> (r: bool)
        requires
            board_wf(board@),
        ensures
            r == board_full(board@),
    {
        board.is_full()
    }
}

} // verus!
