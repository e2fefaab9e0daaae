//! Pattern classification and whole-board evaluation.
//!
//! A stone's run along each of the four axes is classified by length and
//! open-end awareness; a board is scored from one player's viewpoint by
//! summing the classified-pattern scores of every stone, with an opposing
//! stone's contribution scaled by a defensive weight of 11/10 (pattern scores
//! are multiples of ten, so the scaling is exact in integers).

use vstd::prelude::*;

verus! {

use crate::board::{board_all_empty, board_wf, cell_at, cell_index, in_bounds, stone_of, BOARD_SIZE};
use crate::board::Board;
use crate::line::{line_count, open_toward, run_toward, valid_dir, lemma_run_toward_bound};
use crate::pattern::{pattern_score, lemma_pattern_score_bounds, Pattern};
use crate::types::{Cell, Player};

/// Shape of a run of `count` stones whose ends are open as given, or `None`
/// when the run is too short or fully blocked.
pub open spec fn classify(count: int, left_open: bool, right_open: bool) -> Option<Pattern> {
    if count >= 5 {
        Some(Pattern::Five)
    } else if count == 4 {
        if left_open && right_open {
            Some(Pattern::LiveFour)
        } else if left_open || right_open {
            Some(Pattern::DeadFour)
        } else {
            None
        }
    } else if count == 3 {
        if left_open && right_open {
            Some(Pattern::LiveThree)
        } else if left_open || right_open {
            Some(Pattern::DeadThree)
        } else {
            None
        }
    } else if count == 2 {
        if left_open && right_open {
            Some(Pattern::LiveTwo)
        } else if left_open || right_open {
            Some(Pattern::DeadTwo)
        } else {
            None
        }
    } else {
        None
    }
}

/// The pattern contributed by the run of `c` through `(x, y)` along the axis
/// `(dx, dy)`.
pub open spec fn dir_pattern(b: Seq<Cell>, x: int, y: int, dx: int, dy: int, c: Cell) -> Option<
    Pattern,
> {
    classify(
        line_count(b, x, y, dx, dy, c),
        open_toward(b, x, y, -dx, -dy, c),
        open_toward(b, x, y, dx, dy, c),
    )
}

/// An optional pattern as a sequence of zero or one elements.
pub open spec fn opt_pattern_seq(o: Option<Pattern>) -> Seq<Pattern> {
    match o {
        Some(p) => seq![p],
        None => Seq::empty(),
    }
}

/// All patterns credited to the stone `c` at `(x, y)`: one per axis, in the
/// order horizontal, vertical, down-right diagonal, down-left diagonal.
pub open spec fn patterns_at(b: Seq<Cell>, x: int, y: int, c: Cell) -> Seq<Pattern> {
    opt_pattern_seq(dir_pattern(b, x, y, 0, 1, c)) + opt_pattern_seq(dir_pattern(b, x, y, 1, 0, c))
        + opt_pattern_seq(dir_pattern(b, x, y, 1, 1, c)) + opt_pattern_seq(
        dir_pattern(b, x, y, 1, -1, c),
    )
}

/// Sum of the scores of a sequence of patterns.
pub open spec fn patterns_score(ps: Seq<Pattern>) -> int
    decreases ps.len(),
{
    if ps.len() == 0 {
        0
    } else {
        patterns_score(ps.drop_last()) + pattern_score(ps.last())
    }
}

/// Total pattern score credited to the stone `c` at `(x, y)`.
pub open spec fn cell_score(b: Seq<Cell>, x: int, y: int, c: Cell) -> int {
    patterns_score(patterns_at(b, x, y, c))
}

/// The player owning a cell's stone, if any.
pub open spec fn owner_of(c: Cell) -> Option<Player> {
    match c {
        Cell::Empty => None,
        Cell::Black => Some(Player::Black),
        Cell::White => Some(Player::White),
    }
}

/// An opponent contribution scaled by the defensive weight of 11/10.
pub open spec fn defense_weight(s: int) -> int {
    s + s / 10
}

/// Signed contribution of the cell with row-major index `i` to the viewpoint
/// player's score.
pub open spec fn cell_contribution(b: Seq<Cell>, i: int, viewpoint: Player) -> int {
    match owner_of(b[i]) {
        None => 0,
        Some(p) => {
            let s = cell_score(b, i / 15, i % 15, b[i]);
            if p == viewpoint {
                s
            } else {
                -defense_weight(s)
            }
        },
    }
}

/// Sum of the contributions of the first `n` cells.
pub open spec fn score_below(b: Seq<Cell>, viewpoint: Player, n: int) -> int
    decreases n,
{
    if n <= 0 {
        0
    } else {
        score_below(b, viewpoint, n - 1) + cell_contribution(b, n - 1, viewpoint)
    }
}

/// The whole-board score from a player's viewpoint.
pub open spec fn board_score(b: Seq<Cell>, viewpoint: Player) -> int {
    score_below(b, viewpoint, 225)
}

/// Largest magnitude a board score can take: 225 cells, each at most four
/// patterns of 100000, defensively weighted.
pub open spec fn score_cap() -> int {
    99000000
}

/// An optional pattern contributes at most one element.
pub proof fn lemma_opt_pattern_len(o: Option<Pattern>)
    ensures
        opt_pattern_seq(o).len() <= 1,
{
}

/// A stone is credited with at most four patterns.
pub proof fn lemma_patterns_at_len(b: Seq<Cell>, x: int, y: int, c: Cell)
    ensures
        patterns_at(b, x, y, c).len() <= 4,
{
    lemma_opt_pattern_len(dir_pattern(b, x, y, 0, 1, c));
    lemma_opt_pattern_len(dir_pattern(b, x, y, 1, 0, c));
    lemma_opt_pattern_len(dir_pattern(b, x, y, 1, 1, c));
    lemma_opt_pattern_len(dir_pattern(b, x, y, 1, -1, c));
}

/// A pattern-score sum lies between zero and 100000 per element.
pub proof fn lemma_patterns_score_bounds(ps: Seq<Pattern>)
    ensures
        0 <= patterns_score(ps) <= 100000 * ps.len(),
    decreases ps.len(),
{
    if ps.len() > 0 {
        lemma_patterns_score_bounds(ps.drop_last());
        lemma_pattern_score_bounds(ps.last());
    }
}

/// A cell's pattern total lies between 0 and 400000.
pub proof fn lemma_cell_score_bounds(b: Seq<Cell>, x: int, y: int, c: Cell)
    ensures
        0 <= cell_score(b, x, y, c) <= 400000,
{
    lemma_patterns_at_len(b, x, y, c);
    lemma_patterns_score_bounds(patterns_at(b, x, y, c));
}

/// A single cell's signed contribution lies between -440000 and 400000.
pub proof fn lemma_cell_contribution_bounds(b: Seq<Cell>, i: int, viewpoint: Player)
    ensures
        -440000 <= cell_contribution(b, i, viewpoint) <= 400000,
{
    lemma_cell_score_bounds(b, i / 15, i % 15, b[i]);
}

/// A prefix score is bounded by 440000 per cell.
pub proof fn lemma_score_below_bounds(b: Seq<Cell>, viewpoint: Player, n: int)
    requires
        n >= 0,
    ensures
        -440000 * n <= score_below(b, viewpoint, n) <= 440000 * n,
    decreases n,
{
    if n > 0 {
        lemma_score_below_bounds(b, viewpoint, n - 1);
        lemma_cell_contribution_bounds(b, n - 1, viewpoint);
    }
}

/// The whole-board score never exceeds the cap in magnitude.
pub proof fn lemma_board_score_bounds(b: Seq<Cell>, viewpoint: Player)
    ensures
        -score_cap() <= board_score(b, viewpoint) <= score_cap(),
{
    lemma_score_below_bounds(b, viewpoint, 225);
}

/// A board with no stone of either player scores zero for every viewpoint.
pub proof fn lemma_empty_board_score(b: Seq<Cell>, viewpoint: Player)
    requires
        board_wf(b),
        board_all_empty(b),
    ensures
        board_score(b, viewpoint) == 0,
{
    lemma_empty_score_below(b, viewpoint, 225);
}

proof fn lemma_empty_score_below(b: Seq<Cell>, viewpoint: Player, n: int)
    requires
        board_wf(b),
        board_all_empty(b),
        n <= 225,
    ensures
        score_below(b, viewpoint, n) == 0,
    decreases n,
{
    if n > 0 {
        lemma_empty_score_below(b, viewpoint, n - 1);
        assert(b[n - 1] == Cell::Empty);
    }
}

/// A run of five or more stones through a cell classifies as Five on that
/// axis, regardless of end openness.
pub proof fn lemma_five_classifies(b: Seq<Cell>, x: int, y: int, dx: int, dy: int, c: Cell)
    requires
        line_count(b, x, y, dx, dy, c) >= 5,
    ensures
        dir_pattern(b, x, y, dx, dy, c) == Some(Pattern::Five),
{
}

/// A run of exactly four with both ends open classifies as LiveFour, whose
/// score is 10000.
pub proof fn lemma_live_four_classifies(b: Seq<Cell>, x: int, y: int, dx: int, dy: int, c: Cell)
    requires
        line_count(b, x, y, dx, dy, c) == 4,
        open_toward(b, x, y, -dx, -dy, c),
        open_toward(b, x, y, dx, dy, c),
    ensures
        dir_pattern(b, x, y, dx, dy, c) == Some(Pattern::LiveFour),
        pattern_score(Pattern::LiveFour) == 10000,
{
}

/// Appending one pattern to a prefix adds exactly its score.
pub proof fn lemma_patterns_score_take_step(ps: Seq<Pattern>, k: int)
    requires
        0 <= k < ps.len(),
    ensures
        patterns_score(ps.take(k + 1)) == patterns_score(ps.take(k)) + pattern_score(ps[k]),
{
    assert(ps.take(k + 1).drop_last() =~= ps.take(k));
    assert(ps.take(k + 1).last() == ps[k]);
}

/// Scores a board position by classified patterns.
pub struct PatternEvaluator;

impl PatternEvaluator {
    /// Counts the run of `target` through `(x, y)` along `(dx, dy)` and
    /// reports whether each end is open.
    fn count_line(board: &Board, x: usize, y: usize, dx: i32, dy: i32, target: Cell) -> (r: (
        usize,
        bool,
        bool,
    ))
        requires
            board_wf(board@),
            in_bounds(x as int, y as int),
            valid_dir(dx as int, dy as int),
        ensures
            r.0 == line_count(board@, x as int, y as int, dx as int, dy as int, target),
            r.1 == open_toward(board@, x as int, y as int, -(dx as int), -(dy as int), target),
            r.2 == open_toward(board@, x as int, y as int, dx as int, dy as int, target),
    {
        let (forward, right_open) = board.scan_run(x as i32, y as i32, dx, dy, target);
        let (backward, left_open) = board.scan_run(x as i32, y as i32, -dx, -dy, target);
        proof {
            lemma_run_toward_bound(
                board@,
                x as int,
                y as int,
                dx as int,
                dy as int,
                target,
            );
            lemma_run_toward_bound(
                board@,
                x as int,
                y as int,
                -(dx as int),
                -(dy as int),
                target,
            );
        }
        (1 + forward + backward, left_open, right_open)
    }

    /// Classifies the run of `target` through `(x, y)` along `(dx, dy)`.
    fn analyze_line(board: &Board, x: usize, y: usize, dx: i32, dy: i32, target: Cell) -> (r:
        Option<Pattern>)
        requires
            board_wf(board@),
            in_bounds(x as int, y as int),
            valid_dir(dx as int, dy as int),
        ensures
            r == dir_pattern(board@, x as int, y as int, dx as int, dy as int, target),
    {
        let (count, left_open, right_open) = Self::count_line(board, x, y, dx, dy, target);
        if count >= 5 {
            Some(Pattern::Five)
        } else if count == 4 {
            if left_open && right_open {
                Some(Pattern::LiveFour)
            } else if left_open || right_open {
                Some(Pattern::DeadFour)
            } else {
                None
            }
        } else if count == 3 {
            if left_open && right_open {
                Some(Pattern::LiveThree)
            } else if left_open || right_open {
                Some(Pattern::DeadThree)
            } else {
                None
            }
        } else if count == 2 {
            if left_open && right_open {
                Some(Pattern::LiveTwo)
            } else if left_open || right_open {
                Some(Pattern::DeadTwo)
            } else {
                None
            }
        } else {
            None
        }
    }

    /// All patterns the given player's stone at `(x, y)` forms, one per axis.
    #[verifier::rlimit(60)]
    pub fn detect_patterns_at(board: &Board, x: usize, y: usize, player: Player) -> (r: Vec<
        Pattern,
    >)
        requires
            board_wf(board@),
            in_bounds(x as int, y as int),
        ensures
            r@ == patterns_at(board@, x as int, y as int, stone_of(player)),
    {
        let cell = match player {
            Player::Black => Cell::Black,
            Player::White => Cell::White,
        };
        let ghost s1 = opt_pattern_seq(dir_pattern(board@, x as int, y as int, 0, 1, cell));
        let ghost s2 = opt_pattern_seq(dir_pattern(board@, x as int, y as int, 1, 0, cell));
        let ghost s3 = opt_pattern_seq(dir_pattern(board@, x as int, y as int, 1, 1, cell));
        let ghost s4 = opt_pattern_seq(dir_pattern(board@, x as int, y as int, 1, -1, cell));
        let mut patterns: Vec<Pattern> = Vec::new();
        if let Some(p) = Self::analyze_line(board, x, y, 0, 1, cell) {
            patterns.push(p);
        }
        proof {
            assert(patterns@ =~= s1);
        }
        if let Some(p) = Self::analyze_line(board, x, y, 1, 0, cell) {
            patterns.push(p);
        }
        proof {
            assert(patterns@ =~= s1 + s2);
        }
        if let Some(p) = Self::analyze_line(board, x, y, 1, 1, cell) {
            patterns.push(p);
        }
        proof {
            assert(patterns@ =~= s1 + s2 + s3);
        }
        if let Some(p) = Self::analyze_line(board, x, y, 1, -1, cell) {
            patterns.push(p);
        }
        proof {
            assert(patterns@ =~= s1 + s2 + s3 + s4);
        }
        patterns
    }

    /// The whole-board score from `player`'s viewpoint: each stone's pattern
    /// total counts positively for the viewpoint player and negatively, with
    /// the 11/10 defensive weight, for the opponent.
    #[verifier::rlimit(60)]
    pub fn evaluate_board(board: &Board, player: Player) -> (r: i32)
        requires
            board_wf(board@),
        ensures
            r == board_score(board@, player),
    {
        let mut score: i32 = 0;
        let mut x: usize = 0;
        while x < BOARD_SIZE
            invariant
                board_wf(board@),
                x <= 15,
                score == score_below(board@, player, 15 * x),
            decreases 15 - x,
        {
            let mut y: usize = 0;
            while y < BOARD_SIZE
                invariant
                    board_wf(board@),
                    x < 15,
                    y <= 15,
                    score == score_below(board@, player, 15 * x + y),
                decreases 15 - y,
            {
                let ghost i: int = 15 * (x as int) + y as int;
                let cell = match board.get(x, y) {
                    Ok(c) => c,
                    Err(_) => {
                        proof {
                            assert(false);
                        }
                        Cell::Empty
                    },
                };
                proof {
                    assert(cell == board@[i]);
                    assert(i / 15 == x as int && i % 15 == y as int);
                    lemma_score_below_bounds(board@, player, i);
                    lemma_cell_contribution_bounds(board@, i, player);
                }
                if cell != Cell::Empty {
                    let cell_player = match cell {
                        Cell::Black => Player::Black,
                        Cell::White => Player::White,
                        Cell::Empty => Player::Black,
                    };
                    let patterns = Self::detect_patterns_at(board, x, y, cell_player);
                    proof {
                        lemma_patterns_at_len(board@, x as int, y as int, stone_of(cell_player));
                    }
                    let mut position_score: i32 = 0;
                    let mut k: usize = 0;
                    while k < patterns.len()
                        invariant
                            patterns@.len() <= 4,
                            k <= patterns@.len(),
                            position_score == patterns_score(patterns@.take(k as int)),
                            0 <= position_score <= 100000 * k,
                        decreases patterns@.len() - k,
                    {
                        proof {
                            lemma_patterns_score_take_step(patterns@, k as int);
                            lemma_pattern_score_bounds(patterns@[k as int]);
                        }
                        position_score = position_score + patterns[k].score();
                        k = k + 1;
                    }
                    proof {
                        assert(patterns@.take(patterns@.len() as int) =~= patterns@);
                        assert(position_score == cell_score(
                            board@,
                            i / 15,
                            i % 15,
                            board@[i],
                        ));
                    }
                    if cell_player == player {
                        score = score + position_score;
                    } else {
                        score = score - (position_score + position_score / 10);
                    }
                }
                proof {
                    assert(score == score_below(board@, player, i + 1));
                }
                y = y + 1;
            }
            x = x + 1;
        }
        proof {
            assert(15 * 15 == 225);
        }
        score
    }
}

/// The same cell with the colours of both players exchanged.
pub open spec fn swap_cell(c: Cell) -> Cell {
    match c {
        Cell::Empty => Cell::Empty,
        Cell::Black => Cell::White,
        Cell::White => Cell::Black,
    }
}

/// The board with the colours of both players exchanged everywhere.
pub open spec fn swap_board(b: Seq<Cell>) -> Seq<Cell> {
    Seq::new(b.len(), |i: int| swap_cell(b[i]))
}

/// The board mirrored left-right: column `y` becomes column `14 - y`.
pub open spec fn mirror_board(b: Seq<Cell>) -> Seq<Cell> {
    Seq::new(225, |i: int| b[cell_index(i / 15, 14 - i % 15)])
}

proof fn lemma_run_swap(b: Seq<Cell>, x: int, y: int, dx: int, dy: int, c: Cell)
    requires
        board_wf(b),
        valid_dir(dx, dy),
    ensures
        run_toward(swap_board(b), x, y, dx, dy, swap_cell(c)) == run_toward(b, x, y, dx, dy, c),
    decreases crate::line::ray_fuel(x, y, dx, dy),
{
    if in_bounds(x + dx, y + dy) {
        assert(cell_at(swap_board(b), x + dx, y + dy) == swap_cell(cell_at(b, x + dx, y + dy)));
        if cell_at(b, x + dx, y + dy) == c {
            lemma_run_swap(b, x + dx, y + dy, dx, dy, c);
        }
    }
}

proof fn lemma_open_swap(b: Seq<Cell>, x: int, y: int, dx: int, dy: int, c: Cell)
    requires
        board_wf(b),
        valid_dir(dx, dy),
    ensures
        open_toward(swap_board(b), x, y, dx, dy, swap_cell(c)) == open_toward(b, x, y, dx, dy, c),
{
    lemma_run_swap(b, x, y, dx, dy, c);
    let n = run_toward(b, x, y, dx, dy, c) as int;
    if in_bounds(x + (n + 1) * dx, y + (n + 1) * dy) {
        assert(cell_at(swap_board(b), x + (n + 1) * dx, y + (n + 1) * dy) == swap_cell(
            cell_at(b, x + (n + 1) * dx, y + (n + 1) * dy),
        ));
    }
}

/// Classification is symmetric under swapping which player owns the stones:
/// the swapped board credits the swapped stone with exactly the same
/// patterns, so a shape's value depends only on run length and openness,
/// never on the owner's identity.
pub proof fn lemma_patterns_player_swap(b: Seq<Cell>, x: int, y: int, c: Cell)
    requires
        board_wf(b),
    ensures
        patterns_at(swap_board(b), x, y, swap_cell(c)) == patterns_at(b, x, y, c),
        cell_score(swap_board(b), x, y, swap_cell(c)) == cell_score(b, x, y, c),
{
    lemma_dir_pattern_swap(b, x, y, 0, 1, c);
    lemma_dir_pattern_swap(b, x, y, 1, 0, c);
    lemma_dir_pattern_swap(b, x, y, 1, 1, c);
    lemma_dir_pattern_swap(b, x, y, 1, -1, c);
    assert(patterns_at(swap_board(b), x, y, swap_cell(c)) =~= patterns_at(b, x, y, c));
}

/// One axis of the player-swap symmetry: the classified pattern is the same.
pub proof fn lemma_dir_pattern_swap(b: Seq<Cell>, x: int, y: int, dx: int, dy: int, c: Cell)
    requires
        board_wf(b),
        valid_dir(dx, dy),
    ensures
        dir_pattern(swap_board(b), x, y, dx, dy, swap_cell(c)) == dir_pattern(b, x, y, dx, dy, c),
{
    lemma_run_swap(b, x, y, dx, dy, c);
    lemma_run_swap(b, x, y, -dx, -dy, c);
    lemma_open_swap(b, x, y, dx, dy, c);
    lemma_open_swap(b, x, y, -dx, -dy, c);
}

proof fn lemma_run_mirror(b: Seq<Cell>, x: int, y: int, dx: int, dy: int, c: Cell)
    requires
        board_wf(b),
        valid_dir(dx, dy),
    ensures
        run_toward(mirror_board(b), x, 14 - y, dx, -dy, c) == run_toward(b, x, y, dx, dy, c),
    decreases crate::line::ray_fuel(x, y, dx, dy),
{
    assert(in_bounds(x + dx, (14 - y) + (-dy)) == in_bounds(x + dx, y + dy));
    if in_bounds(x + dx, y + dy) {
        let i = cell_index(x + dx, 14 - (y + dy));
        assert(i / 15 == x + dx && i % 15 == 14 - (y + dy));
        assert(cell_at(mirror_board(b), x + dx, 14 - (y + dy)) == cell_at(b, x + dx, y + dy));
        if cell_at(b, x + dx, y + dy) == c {
            lemma_run_mirror(b, x + dx, y + dy, dx, dy, c);
        }
    }
}

proof fn lemma_open_mirror(b: Seq<Cell>, x: int, y: int, dx: int, dy: int, c: Cell)
    requires
        board_wf(b),
        valid_dir(dx, dy),
    ensures
        open_toward(mirror_board(b), x, 14 - y, dx, -dy, c) == open_toward(b, x, y, dx, dy, c),
{
    lemma_run_mirror(b, x, y, dx, dy, c);
    let n = run_toward(b, x, y, dx, dy, c) as int;
    assert((14 - y) + (n + 1) * (-dy) == 14 - (y + (n + 1) * dy)) by (nonlinear_arith);
    assert(in_bounds(x + (n + 1) * dx, 14 - (y + (n + 1) * dy)) == in_bounds(
        x + (n + 1) * dx,
        y + (n + 1) * dy,
    ));
    if in_bounds(x + (n + 1) * dx, y + (n + 1) * dy) {
        let i = cell_index(x + (n + 1) * dx, 14 - (y + (n + 1) * dy));
        assert(i / 15 == x + (n + 1) * dx && i % 15 == 14 - (y + (n + 1) * dy));
        assert(cell_at(mirror_board(b), x + (n + 1) * dx, 14 - (y + (n + 1) * dy)) == cell_at(
            b,
            x + (n + 1) * dx,
            y + (n + 1) * dy,
        ));
    }
}

/// Reversing an axis does not change its classified pattern: the run length
/// is the same sum and the two open ends merely swap.
pub proof fn lemma_dir_pattern_reverse(b: Seq<Cell>, x: int, y: int, dx: int, dy: int, c: Cell)
    ensures
        dir_pattern(b, x, y, -dx, -dy, c) == dir_pattern(b, x, y, dx, dy, c),
{
}

/// Classification is symmetric under mirroring the board left-right: the
/// mirrored cell's pattern on the mirrored axis equals the original's.
pub proof fn lemma_dir_pattern_mirror(b: Seq<Cell>, x: int, y: int, dx: int, dy: int, c: Cell)
    requires
        board_wf(b),
        valid_dir(dx, dy),
    ensures
        dir_pattern(mirror_board(b), x, 14 - y, dx, -dy, c) == dir_pattern(b, x, y, dx, dy, c),
{
    lemma_run_mirror(b, x, y, dx, dy, c);
    lemma_run_mirror(b, x, y, -dx, -dy, c);
    lemma_open_mirror(b, x, y, dx, dy, c);
    lemma_open_mirror(b, x, y, -dx, -dy, c);
}

/// Concatenated pattern sequences score by the sum of their parts.
pub proof fn lemma_patterns_score_concat(s: Seq<Pattern>, t: Seq<Pattern>)
    ensures
        patterns_score(s + t) == patterns_score(s) + patterns_score(t),
    decreases t.len(),
{
    if t.len() == 0 {
        assert(s + t =~= s);
    } else {
        lemma_patterns_score_concat(s, t.drop_last());
        assert((s + t).drop_last() =~= s + t.drop_last());
        assert((s + t).last() == t.last());
    }
}

/// A stone's total pattern value is unchanged by mirroring the board
/// left-right: the axes permute among themselves and each keeps its pattern.
pub proof fn lemma_cell_score_mirror(b: Seq<Cell>, x: int, y: int, c: Cell)
    requires
        board_wf(b),
    ensures
        cell_score(mirror_board(b), x, 14 - y, c) == cell_score(b, x, y, c),
{
    let m = mirror_board(b);
    lemma_dir_pattern_mirror(b, x, y, 0, -1, c);
    lemma_dir_pattern_reverse(b, x, y, 0, 1, c);
    assert(dir_pattern(m, x, 14 - y, 0, 1, c) == dir_pattern(b, x, y, 0, 1, c));
    lemma_dir_pattern_mirror(b, x, y, 1, 0, c);
    assert(dir_pattern(m, x, 14 - y, 1, 0, c) == dir_pattern(b, x, y, 1, 0, c));
    lemma_dir_pattern_mirror(b, x, y, 1, -1, c);
    assert(dir_pattern(m, x, 14 - y, 1, 1, c) == dir_pattern(b, x, y, 1, -1, c));
    lemma_dir_pattern_mirror(b, x, y, 1, 1, c);
    assert(dir_pattern(m, x, 14 - y, 1, -1, c) == dir_pattern(b, x, y, 1, 1, c));
    let p1 = opt_pattern_seq(dir_pattern(b, x, y, 0, 1, c));
    let p2 = opt_pattern_seq(dir_pattern(b, x, y, 1, 0, c));
    let p3 = opt_pattern_seq(dir_pattern(b, x, y, 1, 1, c));
    let p4 = opt_pattern_seq(dir_pattern(b, x, y, 1, -1, c));
    assert(patterns_at(m, x, 14 - y, c) == p1 + p2 + p4 + p3);
    lemma_patterns_score_concat(p1 + p2 + p4, p3);
    lemma_patterns_score_concat(p1 + p2, p4);
    lemma_patterns_score_concat(p1 + p2 + p3, p4);
    lemma_patterns_score_concat(p1 + p2, p3);
    assert((p1 + p2 + p3) + p4 =~= p1 + p2 + p3 + p4);
    assert((p1 + p2 + p4) + p3 =~= p1 + p2 + p4 + p3);
}

/// Whole-board corollary of the player-swap symmetry: swapping every stone's
/// colour and the viewpoint together leaves the evaluation unchanged.
pub proof fn lemma_board_score_player_swap(b: Seq<Cell>, viewpoint: Player)
    requires
        board_wf(b),
    ensures
        board_score(swap_board(b), crate::types::opponent_of(viewpoint)) == board_score(
            b,
            viewpoint,
        ),
{
    lemma_score_below_player_swap(b, viewpoint, 225);
}

proof fn lemma_score_below_player_swap(b: Seq<Cell>, viewpoint: Player, n: int)
    requires
        board_wf(b),
        n <= 225,
    ensures
        score_below(swap_board(b), crate::types::opponent_of(viewpoint), n) == score_below(
            b,
            viewpoint,
            n,
        ),
    decreases n,
{
    if n > 0 {
        lemma_score_below_player_swap(b, viewpoint, n - 1);
        let i = n - 1;
        assert(swap_board(b)[i] == swap_cell(b[i]));
        lemma_patterns_player_swap(b, i / 15, i % 15, b[i]);
    }
}

} // verus!
