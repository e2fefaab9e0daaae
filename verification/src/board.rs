//! The 15x15 board: a fixed grid of cells with bounds-checked accessors.
//!
//! A board is viewed as a flat sequence of 225 cells in row-major order;
//! every public operation is specified against that view.

use vstd::prelude::*;

verus! {

use crate::types::{BoardError, Cell, Player};

/// Side length of the square board.
pub const BOARD_SIZE: usize = 15;

/// Number of cells on the board.
pub const CELL_COUNT: usize = 225;

/// Both coordinates lie on the board.
pub open spec fn in_bounds(x: int, y: int) -> bool {
    0 <= x < 15 && 0 <= y < 15
}

/// Row-major index of a coordinate pair.
pub open spec fn cell_index(x: int, y: int) -> int {
    x * 15 + y
}

/// The stone that a player places.
pub open spec fn stone_of(p: Player) -> Cell {
    match p {
        Player::Black => Cell::Black,
        Player::White => Cell::White,
    }
}

/// A well-formed board view: exactly one cell per coordinate.
pub open spec fn board_wf(b: Seq<Cell>) -> bool {
    b.len() == 225
}

/// The cell at a coordinate pair.
pub open spec fn cell_at(b: Seq<Cell>, x: int, y: int) -> Cell {
    b[cell_index(x, y)]
}

/// The board with one cell replaced.
pub open spec fn board_place(b: Seq<Cell>, x: int, y: int, c: Cell) -> Seq<Cell> {
    b.update(cell_index(x, y), c)
}

/// Every cell is empty.
pub open spec fn board_all_empty(b: Seq<Cell>) -> bool {
    forall|i: int| 0 <= i < b.len() ==> b[i] == Cell::Empty
}

/// Every cell holds a stone.
pub open spec fn board_full(b: Seq<Cell>) -> bool {
    forall|i: int| 0 <= i < b.len() ==> b[i] != Cell::Empty
}

/// Number of stones among the first `n` cells.
pub open spec fn occupied_below(b: Seq<Cell>, n: int) -> int
    decreases n,
{
    if n <= 0 {
        0
    } else {
        occupied_below(b, n - 1) + if b[n - 1] != Cell::Empty {
            1int
        } else {
            0int
        }
    }
}

/// Distinct coordinate pairs map to distinct row-major indices.
pub proof fn lemma_cell_index_injective(x1: int, y1: int, x2: int, y2: int)
    requires
        in_bounds(x1, y1),
        in_bounds(x2, y2),
        cell_index(x1, y1) == cell_index(x2, y2),
    ensures
        x1 == x2 && y1 == y2,
{
}

/// Placing a stone on an empty cell and reading the same coordinate back
/// yields exactly that stone, and no other cell changes.
pub proof fn lemma_place_then_read(b: Seq<Cell>, x: int, y: int, p: Player)
    requires
        board_wf(b),
        in_bounds(x, y),
        cell_at(b, x, y) == Cell::Empty,
    ensures
        cell_at(board_place(b, x, y, stone_of(p)), x, y) == stone_of(p),
        forall|x2: int, y2: int|
            in_bounds(x2, y2) && !(x2 == x && y2 == y) ==> cell_at(
                board_place(b, x, y, stone_of(p)),
                x2,
                y2,
            ) == cell_at(b, x2, y2),
{
    assert forall|x2: int, y2: int|
        in_bounds(x2, y2) && !(x2 == x && y2 == y) implies cell_at(
        board_place(b, x, y, stone_of(p)),
        x2,
        y2,
    ) == cell_at(b, x2, y2) by {
        if cell_index(x2, y2) == cell_index(x, y) {
            lemma_cell_index_injective(x2, y2, x, y);
        }
    }
}

/// A fixed 15x15 grid of cells stored in row-major order.
pub struct Board {
    cells: Vec<Cell>,
}

impl View for Board {
    type V = Seq<Cell>;

    closed spec fn view(&self) -> Seq<Cell> {
        self.cells@
    }
}

impl Board {
    /// A fresh board with every cell empty.
    pub fn new() -> (b: Board)
        ensures
            board_wf(b@),
            board_all_empty(b@),
    {
        let mut cells: Vec<Cell> = Vec::new();
        let mut i: usize = 0;
        while i < CELL_COUNT
            invariant
                i <= 225,
                cells@.len() == i,
                forall|k: int| 0 <= k < i ==> cells@[k] == Cell::Empty,
            decreases 225 - i,
        {
            cells.push(Cell::Empty);
            i = i + 1;
        }
        Board { cells }
    }

    /// The cell at `(x, y)`, or `OutOfBounds` if either coordinate is off the
    /// board. Never mutates.
    pub fn get(&self, x: usize, y: usize) -> (r: Result<Cell, BoardError>)
        requires
            board_wf(self@),
        ensures
            in_bounds(x as int, y as int) ==> r == Ok::<Cell, BoardError>(
                cell_at(self@, x as int, y as int),
            ),
            !in_bounds(x as int, y as int) ==> r == Err::<Cell, BoardError>(
                BoardError::OutOfBounds,
            ),
    {
        if x >= BOARD_SIZE || y >= BOARD_SIZE {
            return Err(BoardError::OutOfBounds);
        }
        Ok(self.cells[x * 15 + y])
    }

    /// Places the player's stone at `(x, y)`. Fails with `OutOfBounds` off the
    /// board and with `CellOccupied` on a non-empty cell; on failure the board
    /// is unchanged.
    pub fn set(&mut self, x: usize, y: usize, player: Player) -> (r: Result<(), BoardError>)
        requires
            board_wf(old(self)@),
        ensures
            board_wf(final(self)@),
            !in_bounds(x as int, y as int) ==> r == Err::<(), BoardError>(BoardError::OutOfBounds)
                && final(self)@ == old(self)@,
            in_bounds(x as int, y as int) && cell_at(old(self)@, x as int, y as int) != Cell::Empty
                ==> r == Err::<(), BoardError>(BoardError::CellOccupied)
                && final(self)@ == old(self)@,
            in_bounds(x as int, y as int) && cell_at(old(self)@, x as int, y as int) == Cell::Empty
                ==> r == Ok::<(), BoardError>(())
                && final(self)@ == board_place(old(self)@, x as int, y as int, stone_of(player)),
    {
        if x >= BOARD_SIZE || y >= BOARD_SIZE {
            return Err(BoardError::OutOfBounds);
        }
        if self.cells[x * 15 + y] != Cell::Empty {
            return Err(BoardError::CellOccupied);
        }
        let stone = match player {
            Player::Black => Cell::Black,
            Player::White => Cell::White,
        };
        self.cells.set(x * 15 + y, stone);
        Ok(())
    }

    /// Whether `(x, y)` is on the board and empty; out-of-bounds coordinates
    /// read as `false` rather than failing.
    pub fn is_empty(&self, x: usize, y: usize) -> (r: bool)
        requires
            board_wf(self@),
        ensures
            r == (in_bounds(x as int, y as int) && cell_at(self@, x as int, y as int)
                == Cell::Empty),
    {
        match self.get(x, y) {
            Ok(Cell::Empty) => true,
            _ => false,
        }
    }

    /// Resets every cell to empty.
    pub fn clear(&mut self)
        requires
            board_wf(old(self)@),
        ensures
            board_wf(final(self)@),
            board_all_empty(final(self)@),
    {
        let mut i: usize = 0;
        while i < CELL_COUNT
            invariant
                i <= 225,
                self.cells@.len() == 225,
                forall|k: int| 0 <= k < i ==> self.cells@[k] == Cell::Empty,
            decreases 225 - i,
        {
            self.cells.set(i, Cell::Empty);
            i = i + 1;
        }
    }

    /// Resets `(x, y)` to empty regardless of prior content (used for undo),
    /// failing only off the board.
    pub fn clear_cell(&mut self, x: usize, y: usize) -> (r: Result<(), BoardError>)
        requires
            board_wf(old(self)@),
        ensures
            board_wf(final(self)@),
            !in_bounds(x as int, y as int) ==> r == Err::<(), BoardError>(BoardError::OutOfBounds)
                && final(self)@ == old(self)@,
            in_bounds(x as int, y as int) ==> r == Ok::<(), BoardError>(()) && final(self)@
                == board_place(old(self)@, x as int, y as int, Cell::Empty),
    {
        if x >= BOARD_SIZE || y >= BOARD_SIZE {
            return Err(BoardError::OutOfBounds);
        }
        self.cells.set(x * 15 + y, Cell::Empty);
        Ok(())
    }

    /// Number of stones on the board.
    pub fn count_pieces(&self) -> (r: usize)
        requires
            board_wf(self@),
        ensures
            r == occupied_below(self@, 225),
    {
        let mut count: usize = 0;
        let mut i: usize = 0;
        while i < CELL_COUNT
            invariant
                i <= 225,
                self.cells@.len() == 225,
                count == occupied_below(self@, i as int),
                count <= i,
            decreases 225 - i,
        {
            if self.cells[i] != Cell::Empty {
                count = count + 1;
            }
            i = i + 1;
        }
        count
    }

    /// Whether every cell holds a stone.
    pub fn is_full(&self) -> (r: bool)
        requires
            board_wf(self@),
        ensures
            r == board_full(self@),
    {
        let n = self.count_pieces();
        proof {
            lemma_occupied_below_full(self@, 225);
        }
        n == CELL_COUNT
    }

    /// An independent deep copy; the search branches on copies without
    /// mutating the caller's board.
    pub fn duplicate(&self) -> (b: Board)
        requires
            board_wf(self@),
        ensures
            board_wf(b@),
            b@ == self@,
    {
        let mut cells: Vec<Cell> = Vec::new();
        let mut i: usize = 0;
        while i < CELL_COUNT
            invariant
                i <= 225,
                self.cells@.len() == 225,
                cells@.len() == i,
                forall|k: int| 0 <= k < i ==> cells@[k] == self.cells@[k],
            decreases 225 - i,
        {
            cells.push(self.cells[i]);
            i = i + 1;
        }
        let b = Board { cells };
        proof {
            assert(b@ =~= self@);
        }
        b
    }
}

impl Default for Board {
    /// Same as `Board::new`: an all-empty board.
    fn default() -> (b: Board)
        ensures
            board_wf(b@),
            board_all_empty(b@),
    {
        Board::new()
    }
}

/// The occupancy count of a prefix never exceeds its length, and reaches it
/// exactly when every cell of the prefix holds a stone.
pub proof fn lemma_occupied_below_full(b: Seq<Cell>, n: int)
    requires
        0 <= n <= b.len(),
    ensures
        0 <= occupied_below(b, n) <= n,
        occupied_below(b, n) == n <==> (forall|i: int| 0 <= i < n ==> b[i] != Cell::Empty),
    decreases n,
{
    if n > 0 {
        lemma_occupied_below_full(b, n - 1);
    }
}

} // verus!
