//! Heuristic candidate generation and depth-limited minimax search with
//! alpha-beta pruning.
//!
//! Candidates are the empty cells within Chebyshev distance 2 of a stone,
//! ranked by a fast crowding-plus-centre weight, stably sorted descending and
//! truncated to a cap. The search explores them recursively, alternating
//! maximizing and minimizing turns; its contract ties the pruned search to
//! `mm_val`, an unpruned exhaustive minimax over the same candidates.

use vstd::prelude::*;

verus! {

use crate::board::{
    board_all_empty,
    board_place,
    board_full,
    board_wf,
    cell_at,
    cell_index,
    in_bounds,
    stone_of,
    BOARD_SIZE,
};
use crate::board::Board;
use crate::evaluator::{board_score, lemma_board_score_bounds, score_cap};
use crate::evaluator::PatternEvaluator;
use crate::line::{crowd_toward, lemma_crowd_le_fuel, valid_dir};
use crate::types::{opponent_of, Cell, Player, Position};

/// A candidate cell paired with its heuristic weight.
#[derive(Debug, Clone, Copy, PartialEq, Eq, Structural)]
pub struct ScoredMove {
    pub pos: Position,
    pub score: i32,
}

/// Whether some stone sits within Chebyshev distance `d` of `(x, y)`, the
/// cell itself excluded.
pub open spec fn has_neighbor_within(b: Seq<Cell>, x: int, y: int, d: int) -> bool {
    exists|nx: int, ny: int|
        in_bounds(nx, ny) && !(nx == x && ny == y) && x - d <= nx <= x + d && y - d <= ny <= y + d
            && #[trigger] cell_at(b, nx, ny) != Cell::Empty
}

/// Absolute value.
pub open spec fn iabs(v: int) -> int {
    if v < 0 {
        -v
    } else {
        v
    }
}

/// Centre-distance bonus: larger towards the middle of the board.
pub open spec fn center_bonus(x: int, y: int) -> int {
    7 - iabs(x - 7) - iabs(y - 7)
}

/// Contiguous occupied neighbours in both senses of one axis.
pub open spec fn crowd_axis(b: Seq<Cell>, x: int, y: int, dx: int, dy: int) -> int {
    crowd_toward(b, x, y, dx, dy) as int + crowd_toward(b, x, y, -dx, -dy) as int
}

/// Fast heuristic weight of an empty cell: crowding over the four axes plus
/// the doubled centre bonus.
pub open spec fn position_weight(b: Seq<Cell>, x: int, y: int) -> int {
    crowd_axis(b, x, y, 0, 1) + crowd_axis(b, x, y, 1, 0) + crowd_axis(b, x, y, 1, 1) + crowd_axis(
        b,
        x,
        y,
        1,
        -1,
    ) + 2 * center_bonus(x, y)
}

/// The heuristic weight of an on-board cell lies between -14 and 142.
pub proof fn lemma_position_weight_bounds(b: Seq<Cell>, x: int, y: int)
    requires
        in_bounds(x, y),
    ensures
        -14 <= position_weight(b, x, y) <= 142,
{
    lemma_crowd_le_fuel(b, x, y, 0, 1);
    lemma_crowd_le_fuel(b, x, y, 0, -1);
    lemma_crowd_le_fuel(b, x, y, 1, 0);
    lemma_crowd_le_fuel(b, x, y, -1, 0);
    lemma_crowd_le_fuel(b, x, y, 1, 1);
    lemma_crowd_le_fuel(b, x, y, -1, -1);
    lemma_crowd_le_fuel(b, x, y, 1, -1);
    lemma_crowd_le_fuel(b, x, y, -1, 1);
}

/// Whether `(x, y)` qualifies as a candidate move: empty, on the board, and
/// near at least one stone.
pub open spec fn is_candidate(b: Seq<Cell>, x: int, y: int) -> bool {
    in_bounds(x, y) && cell_at(b, x, y) == Cell::Empty && has_neighbor_within(b, x, y, 2)
}

/// The scored candidates among the first `n` cells, in row-major order.
pub open spec fn scored_below(b: Seq<Cell>, n: int) -> Seq<ScoredMove>
    decreases n,
{
    if n <= 0 {
        Seq::empty()
    } else {
        let i = n - 1;
        let prev = scored_below(b, i);
        if is_candidate(b, i / 15, i % 15) {
            prev.push(
                ScoredMove {
                    pos: Position { x: (i / 15) as usize, y: (i % 15) as usize },
                    score: position_weight(b, i / 15, i % 15) as i32,
                },
            )
        } else {
            prev
        }
    }
}

/// All scored candidates of the board, in row-major order.
pub open spec fn scored_cells(b: Seq<Cell>) -> Seq<ScoredMove> {
    scored_below(b, 225)
}

/// Inserts a move into a descending-sorted sequence, after every element
/// whose score is at least as large (so earlier equal-scored moves stay
/// first).
pub open spec fn insert_desc(s: Seq<ScoredMove>, m: ScoredMove) -> Seq<ScoredMove>
    decreases s.len(),
{
    if s.len() == 0 {
        seq![m]
    } else if s.last().score >= m.score {
        s.push(m)
    } else {
        insert_desc(s.drop_last(), m).push(s.last())
    }
}

/// Stable descending sort by score: insertion sort from the left.
pub open spec fn sort_desc(s: Seq<ScoredMove>) -> Seq<ScoredMove>
    decreases s.len(),
{
    if s.len() == 0 {
        Seq::empty()
    } else {
        insert_desc(sort_desc(s.drop_last()), s.last())
    }
}

/// Inserting adds exactly one element.
pub proof fn lemma_insert_desc_len(s: Seq<ScoredMove>, m: ScoredMove)
    ensures
        insert_desc(s, m).len() == s.len() + 1,
    decreases s.len(),
{
    if s.len() > 0 && s.last().score < m.score {
        lemma_insert_desc_len(s.drop_last(), m);
    }
}

/// Sorting keeps the length.
pub proof fn lemma_sort_desc_len(s: Seq<ScoredMove>)
    ensures
        sort_desc(s).len() == s.len(),
    decreases s.len(),
{
    if s.len() > 0 {
        lemma_sort_desc_len(s.drop_last());
        lemma_insert_desc_len(sort_desc(s.drop_last()), s.last());
    }
}

/// Where every later element scores below `m` and the preceding one does
/// not, inserting lands `m` exactly there.
pub proof fn lemma_insert_desc_at(s: Seq<ScoredMove>, m: ScoredMove, j: int)
    requires
        0 <= j <= s.len(),
        forall|k: int| j <= k < s.len() ==> s[k].score < m.score,
        j > 0 ==> s[j - 1].score >= m.score,
    ensures
        insert_desc(s, m) == s.subrange(0, j) + seq![m] + s.subrange(j, s.len() as int),
    decreases s.len(),
{
    if j == s.len() {
        assert(insert_desc(s, m) =~= s.subrange(0, j) + seq![m] + s.subrange(j, s.len() as int));
    } else {
        assert(s[s.len() - 1].score < m.score);
        lemma_insert_desc_at(s.drop_last(), m, j);
        assert(insert_desc(s, m) == insert_desc(s.drop_last(), m).push(s.last()));
        assert(insert_desc(s, m) =~= s.subrange(0, j) + seq![m] + s.subrange(j, s.len() as int));
    }
}

/// Candidate moves of a board: scored candidates stably sorted by weight
/// descending, truncated to `cap`, positions only.
pub open spec fn candidate_moves(b: Seq<Cell>, cap: int) -> Seq<Position> {
    let sorted = sort_desc(scored_cells(b));
    let n = if cap < 0 {
        0int
    } else if cap <= sorted.len() {
        cap
    } else {
        sorted.len() as int
    };
    sorted.take(n).map_values(|m: ScoredMove| m.pos)
}

/// Every element of the scored-candidate prefix is a candidate cell whose
/// weight it carries.
pub proof fn lemma_scored_below_props(b: Seq<Cell>, n: int)
    requires
        n <= 225,
    ensures
        forall|j: int|
            0 <= j < scored_below(b, n).len() ==> is_candidate(
                b,
                #[trigger] scored_below(b, n)[j].pos.x as int,
                scored_below(b, n)[j].pos.y as int,
            ),
    decreases n,
{
    if n > 0 {
        lemma_scored_below_props(b, n - 1);
        let i = n - 1;
        let prev = scored_below(b, i);
        assert forall|j: int|
            0 <= j < scored_below(b, n).len() implies is_candidate(
            b,
            #[trigger] scored_below(b, n)[j].pos.x as int,
            scored_below(b, n)[j].pos.y as int,
        ) by {
            if is_candidate(b, i / 15, i % 15) {
                assert(0 <= i / 15 < 15 && 0 <= i % 15 < 15);
                if j < prev.len() {
                    assert(scored_below(b, n)[j] == prev[j]);
                } else {
                    assert(scored_below(b, n)[j].pos.x as int == i / 15);
                    assert(scored_below(b, n)[j].pos.y as int == i % 15);
                }
            } else {
                assert(scored_below(b, n)[j] == prev[j]);
            }
        }
    }
}

/// Inserting keeps the candidate property of every element.
proof fn lemma_insert_desc_elems(s: Seq<ScoredMove>, m: ScoredMove, b: Seq<Cell>)
    requires
        forall|j: int|
            0 <= j < s.len() ==> is_candidate(b, #[trigger] s[j].pos.x as int, s[j].pos.y as int),
        is_candidate(b, m.pos.x as int, m.pos.y as int),
    ensures
        forall|j: int|
            0 <= j < insert_desc(s, m).len() ==> is_candidate(
                b,
                #[trigger] insert_desc(s, m)[j].pos.x as int,
                insert_desc(s, m)[j].pos.y as int,
            ),
    decreases s.len(),
{
    if s.len() == 0 {
        assert forall|j: int|
            0 <= j < insert_desc(s, m).len() implies is_candidate(
            b,
            #[trigger] insert_desc(s, m)[j].pos.x as int,
            insert_desc(s, m)[j].pos.y as int,
        ) by {
            assert(insert_desc(s, m)[j] == m);
        }
    } else if s.last().score >= m.score {
        assert forall|j: int|
            0 <= j < insert_desc(s, m).len() implies is_candidate(
            b,
            #[trigger] insert_desc(s, m)[j].pos.x as int,
            insert_desc(s, m)[j].pos.y as int,
        ) by {
            if j < s.len() {
                assert(insert_desc(s, m)[j] == s[j]);
            } else {
                assert(insert_desc(s, m)[j] == m);
            }
        }
    } else {
        assert(forall|j: int|
            0 <= j < s.drop_last().len() ==> is_candidate(
                b,
                #[trigger] s.drop_last()[j].pos.x as int,
                s.drop_last()[j].pos.y as int,
            ));
        lemma_insert_desc_elems(s.drop_last(), m, b);
        let rec = insert_desc(s.drop_last(), m);
        assert forall|j: int|
            0 <= j < insert_desc(s, m).len() implies is_candidate(
            b,
            #[trigger] insert_desc(s, m)[j].pos.x as int,
            insert_desc(s, m)[j].pos.y as int,
        ) by {
            if j < rec.len() {
                assert(insert_desc(s, m)[j] == rec[j]);
            } else {
                assert(insert_desc(s, m)[j] == s.last());
                assert(s.last() == s[s.len() - 1]);
            }
        }
    }
}

/// Sorting keeps the candidate property of every element.
proof fn lemma_sort_desc_elems(s: Seq<ScoredMove>, b: Seq<Cell>)
    requires
        forall|j: int|
            0 <= j < s.len() ==> is_candidate(b, #[trigger] s[j].pos.x as int, s[j].pos.y as int),
    ensures
        forall|j: int|
            0 <= j < sort_desc(s).len() ==> is_candidate(
                b,
                #[trigger] sort_desc(s)[j].pos.x as int,
                sort_desc(s)[j].pos.y as int,
            ),
    decreases s.len(),
{
    if s.len() > 0 {
        assert(forall|j: int|
            0 <= j < s.drop_last().len() ==> is_candidate(
                b,
                #[trigger] s.drop_last()[j].pos.x as int,
                s.drop_last()[j].pos.y as int,
            ));
        lemma_sort_desc_elems(s.drop_last(), b);
        lemma_insert_desc_elems(sort_desc(s.drop_last()), s.last(), b);
    }
}

/// Every candidate move names an empty on-board cell near a stone.
pub proof fn lemma_candidate_moves_props(b: Seq<Cell>, cap: int)
    ensures
        forall|j: int|
            0 <= j < candidate_moves(b, cap).len() ==> is_candidate(
                b,
                #[trigger] candidate_moves(b, cap)[j].x as int,
                candidate_moves(b, cap)[j].y as int,
            ),
{
    lemma_scored_below_props(b, 225);
    lemma_sort_desc_elems(scored_cells(b), b);
    lemma_sort_desc_len(scored_cells(b));
}

/// On an all-empty board no cell has a neighbour, so no candidate exists:
/// the generator's documented boundary condition.
pub proof fn lemma_empty_board_candidates(b: Seq<Cell>, cap: int)
    requires
        board_wf(b),
        board_all_empty(b),
    ensures
        candidate_moves(b, cap) == Seq::<Position>::empty(),
{
    lemma_empty_scored_below(b, 225);
    assert(candidate_moves(b, cap) =~= Seq::<Position>::empty());
}

proof fn lemma_empty_scored_below(b: Seq<Cell>, n: int)
    requires
        board_wf(b),
        board_all_empty(b),
        n <= 225,
    ensures
        scored_below(b, n) == Seq::<ScoredMove>::empty(),
    decreases n,
{
    if n > 0 {
        lemma_empty_scored_below(b, n - 1);
        let i = n - 1;
        if is_candidate(b, i / 15, i % 15) {
            let (nx, ny) = choose|nx: int, ny: int|
                in_bounds(nx, ny) && !(nx == i / 15 && ny == i % 15) && i / 15 - 2 <= nx <= i / 15
                    + 2 && i % 15 - 2 <= ny <= i % 15 + 2 && #[trigger] cell_at(b, nx, ny)
                    != Cell::Empty;
            assert(b[cell_index(nx, ny)] == Cell::Empty);
            assert(false);
        }
    }
}

/// The recursive game-tree searcher.
pub struct MinimaxSolver;

impl MinimaxSolver {
    /// Whether any stone sits within Chebyshev distance `distance` of
    /// `(x, y)`, the cell itself excluded.
    pub fn has_neighbor_within(board: &Board, x: usize, y: usize, distance: usize) -> (r: bool)
        requires
            board_wf(board@),
            in_bounds(x as int, y as int),
            distance <= 15,
        ensures
            r == has_neighbor_within(board@, x as int, y as int, distance as int),
    {
        let start_x = if x >= distance {
            x - distance
        } else {
            0
        };
        let end_x = if x + distance <= 14 {
            x + distance
        } else {
            14
        };
        let start_y = if y >= distance {
            y - distance
        } else {
            0
        };
        let end_y = if y + distance <= 14 {
            y + distance
        } else {
            14
        };
        let mut nx = start_x;
        while nx <= end_x
            invariant
                board_wf(board@),
                in_bounds(x as int, y as int),
                distance <= 15,
                start_x == if x >= distance { x - distance } else { 0 },
                end_x == if x + distance <= 14 { (x + distance) as int } else { 14int },
                start_y == if y >= distance { y - distance } else { 0 },
                end_y == if y + distance <= 14 { (y + distance) as int } else { 14int },
                start_x <= nx <= end_x + 1,
                forall|wx: int, wy: int|
                    start_x <= wx < nx && start_y <= wy <= end_y && !(wx == x && wy == y)
                        ==> #[trigger] cell_at(board@, wx, wy) == Cell::Empty,
            decreases end_x + 1 - nx,
        {
            let mut ny = start_y;
            while ny <= end_y
                invariant
                    board_wf(board@),
                    in_bounds(x as int, y as int),
                    distance <= 15,
                    start_x == if x >= distance { x - distance } else { 0 },
                    end_x == if x + distance <= 14 { (x + distance) as int } else { 14int },
                    start_y == if y >= distance { y - distance } else { 0 },
                    end_y == if y + distance <= 14 { (y + distance) as int } else { 14int },
                    start_x <= nx <= end_x <= 14,
                    start_y <= ny,
                    end_y <= 14,
                    forall|wx: int, wy: int|
                        start_x <= wx < nx && start_y <= wy <= end_y && !(wx == x && wy == y)
                            ==> #[trigger] cell_at(board@, wx, wy) == Cell::Empty,
                    forall|wy: int|
                        start_y <= wy < ny && !(nx == x && wy == y) ==> #[trigger] cell_at(
                            board@,
                            nx as int,
                            wy,
                        ) == Cell::Empty,
                decreases end_y + 1 - ny,
            {
                if !(nx == x && ny == y) {
                    if !board.is_empty(nx, ny) {
                        proof {
                            assert(in_bounds(nx as int, ny as int));
                            assert(cell_at(board@, nx as int, ny as int) != Cell::Empty);
                        }
                        return true;
                    }
                }
                ny = ny + 1;
            }
            nx = nx + 1;
        }
        proof {
            assert(!has_neighbor_within(board@, x as int, y as int, distance as int)) by {
                if has_neighbor_within(board@, x as int, y as int, distance as int) {
                    let (wx, wy) = choose|wx: int, wy: int|
                        in_bounds(wx, wy) && !(wx == x && wy == y) && x - distance <= wx <= x
                            + distance && y - distance <= wy <= y + distance && #[trigger] cell_at(
                            board@,
                            wx,
                            wy,
                        ) != Cell::Empty;
                    assert(start_x <= wx <= end_x && start_y <= wy <= end_y);
                    assert(cell_at(board@, wx, wy) == Cell::Empty);
                }
            }
        }
        false
    }

    /// Contiguous occupied neighbours of `(x, y)` in both senses of the axis
    /// `(dx, dy)`, ignoring stone colour.
    pub fn count_neighbors(board: &Board, x: usize, y: usize, dx: i32, dy: i32) -> (r: i32)
        requires
            board_wf(board@),
            in_bounds(x as int, y as int),
            valid_dir(dx as int, dy as int),
        ensures
            r == crowd_axis(board@, x as int, y as int, dx as int, dy as int),
            0 <= r <= 32,
    {
        let forward = board.scan_crowd(x as i32, y as i32, dx, dy);
        let backward = board.scan_crowd(x as i32, y as i32, -dx, -dy);
        forward as i32 + backward as i32
    }

    /// Fast heuristic weight of a cell: contiguous occupied neighbours over
    /// the four axes, plus the doubled centre-distance bonus.
    pub fn evaluate_position(board: &Board, x: usize, y: usize) -> (r: i32)
        requires
            board_wf(board@),
            in_bounds(x as int, y as int),
        ensures
            r == position_weight(board@, x as int, y as int),
    {
        let xi = x as i32;
        let yi = y as i32;
        let mut crowd: i32 = 0;
        crowd = crowd + Self::count_neighbors(board, x, y, 0, 1);
        crowd = crowd + Self::count_neighbors(board, x, y, 1, 0);
        crowd = crowd + Self::count_neighbors(board, x, y, 1, 1);
        crowd = crowd + Self::count_neighbors(board, x, y, 1, -1);
        let center_x = if xi >= 7 {
            xi - 7
        } else {
            7 - xi
        };
        let center_y = if yi >= 7 {
            yi - 7
        } else {
            7 - yi
        };
        let bonus = 7 - center_x - center_y;
        crowd + bonus * 2
    }

    /// Candidate moves of the board: every empty cell within distance 2 of a
    /// stone, weighted, stably sorted by weight descending, and truncated to
    /// `max_count`.
    pub fn generate_candidate_moves(board: &Board, max_count: usize) -> (r: Vec<Position>)
        requires
            board_wf(board@),
        ensures
            r@ == candidate_moves(board@, max_count as int),
    {
        let mut scored: Vec<ScoredMove> = Vec::new();
        let mut x: usize = 0;
        while x < BOARD_SIZE
            invariant
                board_wf(board@),
                x <= 15,
                scored@ == scored_below(board@, 15 * x),
            decreases 15 - x,
        {
            let mut y: usize = 0;
            while y < BOARD_SIZE
                invariant
                    board_wf(board@),
                    x < 15,
                    y <= 15,
                    scored@ == scored_below(board@, 15 * x + y),
                decreases 15 - y,
            {
                let ghost i: int = 15 * (x as int) + y as int;
                proof {
                    assert(i / 15 == x as int && i % 15 == y as int);
                }
                if board.is_empty(x, y) && Self::has_neighbor_within(board, x, y, 2) {
                    let weight = Self::evaluate_position(board, x, y);
                    proof {
                        lemma_position_weight_bounds(board@, x as int, y as int);
                    }
                    scored.push(ScoredMove { pos: Position { x, y }, score: weight });
                }
                y = y + 1;
            }
            x = x + 1;
        }
        proof {
            assert(15 * 15 == 225);
            assert(scored@ == scored_cells(board@));
        }
        // Stable insertion sort, descending by weight.
        let mut sorted: Vec<ScoredMove> = Vec::new();
        let mut i: usize = 0;
        while i < scored.len()
            invariant
                sorted@ == sort_desc(scored@.take(i as int)),
                sorted@.len() == i,
                i <= scored@.len(),
            decreases scored@.len() - i,
        {
            let m = scored[i];
            let mut j = sorted.len();
            while j > 0 && sorted[j - 1].score < m.score
                invariant
                    j <= sorted@.len(),
                    forall|k: int| j <= k < sorted@.len() ==> #[trigger] sorted@[k].score < m.score,
                decreases j,
            {
                j = j - 1;
            }
            proof {
                lemma_insert_desc_at(sorted@, m, j as int);
                assert(scored@.take(i + 1).drop_last() =~= scored@.take(i as int));
                assert(scored@.take(i + 1).last() == scored@[i as int]);
            }
            sorted.insert(j, m);
            proof {
                assert(sorted@ =~= sort_desc(scored@.take(i as int)).subrange(0, j as int)
                    + seq![m] + sort_desc(scored@.take(i as int)).subrange(
                    j as int,
                    sort_desc(scored@.take(i as int)).len() as int,
                ));
            }
            i = i + 1;
        }
        proof {
            assert(scored@.take(scored@.len() as int) =~= scored@);
        }
        // Keep the best `max_count`, positions only.
        let limit = if max_count <= sorted.len() {
            max_count
        } else {
            sorted.len()
        };
        let mut result: Vec<Position> = Vec::new();
        let mut k: usize = 0;
        while k < limit
            invariant
                limit <= sorted@.len(),
                k <= limit,
                result@.len() == k,
                forall|j: int| 0 <= j < k ==> #[trigger] result@[j] == sorted@[j].pos,
            decreases limit - k,
        {
            result.push(sorted[k].pos);
            k = k + 1;
        }
        proof {
            assert(result@ =~= candidate_moves(board@, max_count as int));
        }
        result
    }
}

/// The board after a move places stone `c` at `p`.
pub open spec fn place_move(b: Seq<Cell>, p: Position, c: Cell) -> Seq<Cell> {
    board_place(b, p.x as int, p.y as int, c)
}

/// The player whose stone the current turn places.
pub open spec fn mover_of(maximizing: bool, player: Player) -> Player {
    if maximizing {
        player
    } else {
        opponent_of(player)
    }
}

/// Value of the position reached by playing candidate `i`: the unpruned
/// minimax value of the child node, one level shallower.
pub open spec fn child_val(
    b: Seq<Cell>,
    cands: Seq<Position>,
    i: int,
    depth: int,
    maximizing: bool,
    player: Player,
) -> int
    decreases depth, 0int, 0int,
{
    if depth <= 0 {
        0
    } else {
        mm_val(
            place_move(b, cands[i], stone_of(mover_of(maximizing, player))),
            depth - 1,
            !maximizing,
            player,
        )
    }
}

/// Unpruned exhaustive minimax over the candidate suffix starting at `i`:
/// the best child value together with the earliest candidate achieving it.
pub open spec fn mm_search(
    b: Seq<Cell>,
    cands: Seq<Position>,
    i: int,
    depth: int,
    maximizing: bool,
    player: Player,
) -> (int, Position)
    decreases depth, 1int, cands.len() - i,
{
    if depth <= 0 || i < 0 || i >= cands.len() {
        (0int, Position { x: 0, y: 0 })
    } else {
        let v = child_val(b, cands, i, depth, maximizing, player);
        if i + 1 >= cands.len() {
            (v, cands[i])
        } else {
            let rest = mm_search(b, cands, i + 1, depth, maximizing, player);
            if maximizing {
                if v >= rest.0 {
                    (v, cands[i])
                } else {
                    rest
                }
            } else {
                if v <= rest.0 {
                    (v, cands[i])
                } else {
                    rest
                }
            }
        }
    }
}

/// Unpruned exhaustive minimax value of a node: the evaluator's score at
/// depth zero or on a full board, zero when no candidate exists, and the
/// best child value otherwise.
pub open spec fn mm_val(b: Seq<Cell>, depth: int, maximizing: bool, player: Player) -> int
    decreases depth, 2int, 0int,
{
    if depth <= 0 || board_full(b) {
        board_score(b, player)
    } else {
        let cands = candidate_moves(b, 20);
        if cands.len() == 0 {
            0
        } else {
            mm_search(b, cands, 0, depth, maximizing, player).0
        }
    }
}

/// The move an unpruned exhaustive minimax picks: the earliest best
/// candidate, or `None` at a terminal node or when no candidate exists.
pub open spec fn mm_move(b: Seq<Cell>, depth: int, maximizing: bool, player: Player) -> Option<
    Position,
> {
    if depth <= 0 || board_full(b) {
        None
    } else {
        let cands = candidate_moves(b, 20);
        if cands.len() == 0 {
            None
        } else {
            Some(mm_search(b, cands, 0, depth, maximizing, player).1)
        }
    }
}

/// `v` does not improve on result `r` for the given turn.
pub open spec fn beaten(maximizing: bool, v: int, r: int) -> bool {
    if maximizing {
        v <= r
    } else {
        v >= r
    }
}

/// `v` is strictly worse than result `r` for the given turn.
pub open spec fn strictly_beaten(maximizing: bool, v: int, r: int) -> bool {
    if maximizing {
        v < r
    } else {
        v > r
    }
}

/// The suffix search starting at `i` returns candidate `k`: the earliest of
/// the suffix achieving the best child value.
pub open spec fn is_first_pick(
    b: Seq<Cell>,
    cands: Seq<Position>,
    i: int,
    depth: int,
    maximizing: bool,
    player: Player,
    k: int,
) -> bool {
    let r = mm_search(b, cands, i, depth, maximizing, player);
    i <= k < cands.len() && r.1 == cands[k] && r.0 == child_val(b, cands, k, depth, maximizing, player)
        && forall|j: int|
        i <= j < k ==> strictly_beaten(
            maximizing,
            #[trigger] child_val(b, cands, j, depth, maximizing, player),
            r.0,
        )
}

/// A loop over a prefix has picked candidate `k`: the earliest of the first
/// `i` candidates achieving value `v`.
pub open spec fn prefix_pick(
    b: Seq<Cell>,
    cands: Seq<Position>,
    depth: int,
    maximizing: bool,
    player: Player,
    i: int,
    k: int,
    v: int,
) -> bool {
    0 <= k < i <= cands.len() && v == child_val(b, cands, k, depth, maximizing, player)
        && forall|j: int|
        0 <= j < k ==> strictly_beaten(
            maximizing,
            #[trigger] child_val(b, cands, j, depth, maximizing, player),
            v,
        )
}

/// Every child value stays within the evaluator's cap.
pub proof fn lemma_child_val_bounds(
    b: Seq<Cell>,
    cands: Seq<Position>,
    i: int,
    depth: int,
    maximizing: bool,
    player: Player,
)
    requires
        board_wf(b),
        0 <= i < cands.len(),
        is_candidate(b, cands[i].x as int, cands[i].y as int),
    ensures
        -score_cap() <= child_val(b, cands, i, depth, maximizing, player) <= score_cap(),
    decreases depth, 0int, 0int,
{
    if depth > 0 {
        lemma_mm_val_bounds(
            place_move(b, cands[i], stone_of(mover_of(maximizing, player))),
            depth - 1,
            !maximizing,
            player,
        );
    }
}

/// Every suffix-search value stays within the evaluator's cap.
pub proof fn lemma_mm_search_bounds(
    b: Seq<Cell>,
    cands: Seq<Position>,
    i: int,
    depth: int,
    maximizing: bool,
    player: Player,
)
    requires
        board_wf(b),
        forall|j: int|
            0 <= j < cands.len() ==> is_candidate(
                b,
                #[trigger] cands[j].x as int,
                cands[j].y as int,
            ),
    ensures
        -score_cap() <= mm_search(b, cands, i, depth, maximizing, player).0 <= score_cap(),
    decreases depth, 1int, cands.len() - i,
{
    if depth <= 0 || i < 0 || i >= cands.len() {
    } else {
        lemma_child_val_bounds(b, cands, i, depth, maximizing, player);
        if i + 1 < cands.len() {
            lemma_mm_search_bounds(b, cands, i + 1, depth, maximizing, player);
        }
    }
}

/// Every minimax value stays within the evaluator's cap.
pub proof fn lemma_mm_val_bounds(b: Seq<Cell>, depth: int, maximizing: bool, player: Player)
    requires
        board_wf(b),
    ensures
        -score_cap() <= mm_val(b, depth, maximizing, player) <= score_cap(),
    decreases depth, 2int, 0int,
{
    if depth <= 0 || board_full(b) {
        lemma_board_score_bounds(b, player);
    } else {
        let cands = candidate_moves(b, 20);
        if cands.len() > 0 {
            lemma_candidate_moves_props(b, 20);
            lemma_mm_search_bounds(b, cands, 0, depth, maximizing, player);
        }
    }
}

/// The suffix search returns the best child value of the suffix and the
/// earliest candidate achieving it.
pub proof fn lemma_mm_search_props(
    b: Seq<Cell>,
    cands: Seq<Position>,
    i: int,
    depth: int,
    maximizing: bool,
    player: Player,
)
    requires
        0 <= i < cands.len(),
        depth >= 1,
    ensures
        forall|j: int|
            i <= j < cands.len() ==> beaten(
                maximizing,
                #[trigger] child_val(b, cands, j, depth, maximizing, player),
                mm_search(b, cands, i, depth, maximizing, player).0,
            ),
        exists|k: int| #[trigger] is_first_pick(b, cands, i, depth, maximizing, player, k),
    decreases cands.len() - i,
{
    let r = mm_search(b, cands, i, depth, maximizing, player);
    let v = child_val(b, cands, i, depth, maximizing, player);
    if i + 1 >= cands.len() {
        assert(is_first_pick(b, cands, i, depth, maximizing, player, i));
    } else {
        lemma_mm_search_props(b, cands, i + 1, depth, maximizing, player);
        let rest = mm_search(b, cands, i + 1, depth, maximizing, player);
        let k0 = choose|k: int| #[trigger] is_first_pick(b, cands, i + 1, depth, maximizing, player, k);
        if maximizing {
            if v >= rest.0 {
                assert(is_first_pick(b, cands, i, depth, maximizing, player, i));
            } else {
                assert(is_first_pick(b, cands, i, depth, maximizing, player, k0));
            }
        } else {
            if v <= rest.0 {
                assert(is_first_pick(b, cands, i, depth, maximizing, player, i));
            } else {
                assert(is_first_pick(b, cands, i, depth, maximizing, player, k0));
            }
        }
    }
}

impl MinimaxSolver {
    /// Terminal test of the search: the board is completely full. (A
    /// five-in-a-row is not detected here; the evaluator's dominant Five
    /// score is what makes winning lines prevail.)
    fn is_game_over(board: &Board) -> (r: bool)
        requires
            board_wf(board@),
        ensures
            r == board_full(board@),
    {
        board.is_full()
    }

    /// Depth-limited minimax with fail-soft alpha-beta pruning.
    ///
    /// The returned score relates to `mm_val`, the unpruned exhaustive
    /// minimax over the same candidates: at most `alpha` means an upper
    /// bound, at least `beta` a lower bound, and anything strictly between
    /// the window bounds is exact. Called with the full window the search
    /// returns exactly the unpruned value and the unpruned first-best move,
    /// so pruning never changes the result.
    pub fn minimax(
        board: &Board,
        depth: u8,
        alpha: i32,
        beta: i32,
        maximizing: bool,
        player: Player,
    ) -> (r: (i32, Option<Position>))
        requires
            board_wf(board@),
            alpha < beta,
        ensures
            -score_cap() <= r.0 <= score_cap(),
            r.0 <= alpha ==> mm_val(board@, depth as int, maximizing, player) <= r.0,
            r.0 >= beta ==> mm_val(board@, depth as int, maximizing, player) >= r.0,
            alpha < r.0 < beta ==> r.0 == mm_val(board@, depth as int, maximizing, player),
            alpha == i32::MIN && beta == i32::MAX ==> r.0 == mm_val(
                board@,
                depth as int,
                maximizing,
                player,
            ) && r.1 == mm_move(board@, depth as int, maximizing, player),
            (r.1 is Some) <==> (depth > 0 && !board_full(board@) && candidate_moves(
                board@,
                20,
            ).len() > 0),
            r.1 matches Some(p) ==> is_candidate(board@, p.x as int, p.y as int),
        decreases depth,
    {
        let ghost b = board@;
        let ghost d = depth as int;
        if depth == 0 || Self::is_game_over(board) {
            let score = PatternEvaluator::evaluate_board(board, player);
            proof {
                lemma_board_score_bounds(b, player);
            }
            return (score, None);
        }
        let cands = Self::generate_candidate_moves(board, 20);
        let ghost cs = candidate_moves(b, 20);
        if cands.len() == 0 {
            return (0, None);
        }
        proof {
            lemma_candidate_moves_props(b, 20);
        }
        let n = cands.len();
        let mut best_move: Option<Position> = None;
        let mut i: usize = 0;
        let mut stop = false;
        if maximizing {
            let mut max_eval = i32::MIN;
            let mut alpha_v = alpha;
            while i < n && !stop
                invariant
                    board_wf(b),
                    b == board@,
                    alpha < beta,
                    d == depth as int,
                    d >= 1,
                    !board_full(b),
                    cs == candidate_moves(b, 20),
                    cands@ == cs,
                    n == cs.len(),
                    0 < n,
                    i <= n,
                    forall|j: int|
                        0 <= j < cs.len() ==> is_candidate(
                            b,
                            #[trigger] cs[j].x as int,
                            cs[j].y as int,
                        ),
                    alpha_v == (if max_eval > alpha {
                        max_eval
                    } else {
                        alpha
                    }),
                    i == 0 ==> max_eval == i32::MIN && best_move is None && !stop,
                    i >= 1 ==> -score_cap() <= max_eval as int <= score_cap(),
                    i >= 1 ==> best_move is Some,
                    best_move matches Some(p) ==> exists|k: int|
                        0 <= k < i && p == #[trigger] cs[k],
                    !stop ==> forall|j: int|
                        0 <= j < i ==> #[trigger] child_val(b, cs, j, d, true, player)
                            <= max_eval as int,
                    !stop ==> (i == 0 || max_eval <= alpha || exists|k: int|
                        0 <= k < i && max_eval as int == #[trigger] child_val(
                            b,
                            cs,
                            k,
                            d,
                            true,
                            player,
                        )),
                    !stop ==> alpha_v < beta,
                    stop ==> i >= 1 && max_eval >= beta && exists|k: int|
                        0 <= k < i && #[trigger] child_val(b, cs, k, d, true, player)
                            >= max_eval as int,
                    alpha == i32::MIN && beta == i32::MAX && i >= 1 ==> !stop && exists|k: int|
                        #[trigger] prefix_pick(b, cs, d, true, player, i as int, k, max_eval as int)
                            && best_move == Some(cs[k]),
                decreases n - i,
            {
                let pos = cands[i];
                let ghost cv = child_val(b, cs, i as int, d, true, player);
                proof {
                    assert(is_candidate(b, cs[i as int].x as int, cs[i as int].y as int));
                }
                let mut child_board = board.duplicate();
                match child_board.set(pos.x, pos.y, player) {
                    Ok(_) => {},
                    Err(_) => {
                        proof {
                            assert(false);
                        }
                    },
                }
                proof {
                    assert(child_board@ == place_move(b, cs[i as int], stone_of(player)));
                    assert(mover_of(true, player) == player);
                }
                let (eval, _) = Self::minimax(&child_board, depth - 1, alpha_v, beta, false, player);
                proof {
                    assert(cv == mm_val(child_board@, d - 1, false, player));
                }
                let ghost old_max = max_eval;
                let ghost old_alpha_v = alpha_v;
                if eval > max_eval {
                    max_eval = eval;
                    best_move = Some(pos);
                }
                if eval > alpha_v {
                    alpha_v = eval;
                }
                if beta <= alpha_v {
                    stop = true;
                }
                proof {
                    if !stop {
                        // The child could not have failed high, so its value
                        // never undercounts: cv <= max_eval.
                        assert(eval < beta);
                        if eval > old_max {
                            if eval <= old_alpha_v {
                                assert(cv <= eval);
                            } else {
                                assert(cv == eval);
                            }
                        } else {
                            assert(eval <= old_alpha_v);
                            assert(cv <= eval);
                        }
                        assert(child_val(b, cs, i as int, d, true, player) <= max_eval as int);
                        if max_eval > alpha {
                            if eval > old_max && eval > old_alpha_v {
                                assert(max_eval as int == child_val(b, cs, i as int, d, true, player));
                            }
                        }
                    } else {
                        // Pruned: the child failed high, so its true value is
                        // at least the returned score.
                        assert(alpha_v >= beta);
                        assert(eval >= beta);
                        assert(max_eval == eval);
                        assert(cv >= eval);
                        assert(child_val(b, cs, i as int, d, true, player) >= max_eval as int);
                    }
                    if alpha == i32::MIN && beta == i32::MAX {
                        assert(eval as int >= -score_cap());
                        assert(!stop);
                        if eval > old_max {
                            assert(eval > old_alpha_v);
                            assert(cv == eval);
                            assert(forall|j: int|
                                0 <= j < i ==> #[trigger] child_val(b, cs, j, d, true, player)
                                    < eval as int);
                            assert(prefix_pick(
                                b,
                                cs,
                                d,
                                true,
                                player,
                                i as int + 1,
                                i as int,
                                max_eval as int,
                            ));
                        } else {
                            let kp = choose|k: int|
                                #[trigger] prefix_pick(
                                    b,
                                    cs,
                                    d,
                                    true,
                                    player,
                                    i as int,
                                    k,
                                    max_eval as int,
                                ) && best_move == Some(cs[k]);
                            assert(prefix_pick(
                                b,
                                cs,
                                d,
                                true,
                                player,
                                i as int + 1,
                                kp,
                                max_eval as int,
                            ));
                        }
                    }
                }
                i = i + 1;
            }
            proof {
                lemma_mm_search_props(b, cs, 0, d, true, player);
                let ms = mm_search(b, cs, 0, d, true, player);
                let kk = choose|k: int| #[trigger] is_first_pick(b, cs, 0, d, true, player, k);
                assert(ms.0 == child_val(b, cs, kk, d, true, player));
                assert(mm_val(b, d, true, player) == ms.0);
                assert(mm_move(b, d, true, player) == Some(ms.1));
                if stop {
                    let kw = choose|k: int|
                        0 <= k < i && #[trigger] child_val(b, cs, k, d, true, player)
                            >= max_eval as int;
                    assert(beaten(true, child_val(b, cs, kw, d, true, player), ms.0));
                    assert(ms.0 >= max_eval as int);
                } else {
                    assert(i == n);
                    assert(beaten(true, child_val(b, cs, kk, d, true, player), max_eval as int));
                    assert(ms.0 <= max_eval as int);
                    if max_eval > alpha {
                        let ke = choose|k: int|
                            0 <= k < i && max_eval as int == #[trigger] child_val(
                                b,
                                cs,
                                k,
                                d,
                                true,
                                player,
                            );
                        assert(beaten(true, child_val(b, cs, ke, d, true, player), ms.0));
                        assert(ms.0 == max_eval as int);
                    }
                    if alpha == i32::MIN && beta == i32::MAX {
                        assert(max_eval as int >= -score_cap());
                        assert(max_eval > alpha);
                        assert(ms.0 == max_eval as int);
                        let kp = choose|k: int|
                            #[trigger] prefix_pick(b, cs, d, true, player, i as int, k, max_eval as int)
                                && best_move == Some(cs[k]);
                        assert(child_val(b, cs, kp, d, true, player) == ms.0);
                        if kp < kk {
                            assert(strictly_beaten(
                                true,
                                child_val(b, cs, kp, d, true, player),
                                ms.0,
                            ));
                            assert(false);
                        }
                        if kk < kp {
                            assert(strictly_beaten(
                                true,
                                child_val(b, cs, kk, d, true, player),
                                max_eval as int,
                            ));
                            assert(false);
                        }
                        assert(best_move == Some(ms.1));
                    }
                }
            }
            (max_eval, best_move)
        } else {
            let mut min_eval = i32::MAX;
            let mut beta_v = beta;
            while i < n && !stop
                invariant
                    board_wf(b),
                    b == board@,
                    alpha < beta,
                    d == depth as int,
                    d >= 1,
                    !board_full(b),
                    cs == candidate_moves(b, 20),
                    cands@ == cs,
                    n == cs.len(),
                    0 < n,
                    i <= n,
                    forall|j: int|
                        0 <= j < cs.len() ==> is_candidate(
                            b,
                            #[trigger] cs[j].x as int,
                            cs[j].y as int,
                        ),
                    beta_v == (if min_eval < beta {
                        min_eval
                    } else {
                        beta
                    }),
                    i == 0 ==> min_eval == i32::MAX && best_move is None && !stop,
                    i >= 1 ==> -score_cap() <= min_eval as int <= score_cap(),
                    i >= 1 ==> best_move is Some,
                    best_move matches Some(p) ==> exists|k: int|
                        0 <= k < i && p == #[trigger] cs[k],
                    !stop ==> forall|j: int|
                        0 <= j < i ==> #[trigger] child_val(b, cs, j, d, false, player)
                            >= min_eval as int,
                    !stop ==> (i == 0 || min_eval >= beta || exists|k: int|
                        0 <= k < i && min_eval as int == #[trigger] child_val(
                            b,
                            cs,
                            k,
                            d,
                            false,
                            player,
                        )),
                    !stop ==> alpha < beta_v,
                    stop ==> i >= 1 && min_eval <= alpha && exists|k: int|
                        0 <= k < i && #[trigger] child_val(b, cs, k, d, false, player)
                            <= min_eval as int,
                    alpha == i32::MIN && beta == i32::MAX && i >= 1 ==> !stop && exists|k: int|
                        #[trigger] prefix_pick(b, cs, d, false, player, i as int, k, min_eval as int)
                            && best_move == Some(cs[k]),
                decreases n - i,
            {
                let pos = cands[i];
                let ghost cv = child_val(b, cs, i as int, d, false, player);
                proof {
                    assert(is_candidate(b, cs[i as int].x as int, cs[i as int].y as int));
                }
                let mut child_board = board.duplicate();
                let opponent = player.opponent();
                match child_board.set(pos.x, pos.y, opponent) {
                    Ok(_) => {},
                    Err(_) => {
                        proof {
                            assert(false);
                        }
                    },
                }
                proof {
                    assert(child_board@ == place_move(b, cs[i as int], stone_of(opponent_of(player))));
                    assert(mover_of(false, player) == opponent_of(player));
                }
                let (eval, _) = Self::minimax(&child_board, depth - 1, alpha, beta_v, true, player);
                proof {
                    assert(cv == mm_val(child_board@, d - 1, true, player));
                }
                let ghost old_min = min_eval;
                let ghost old_beta_v = beta_v;
                if eval < min_eval {
                    min_eval = eval;
                    best_move = Some(pos);
                }
                if eval < beta_v {
                    beta_v = eval;
                }
                if beta_v <= alpha {
                    stop = true;
                }
                proof {
                    if !stop {
                        assert(eval > alpha);
                        if eval < old_min {
                            if eval >= old_beta_v {
                                assert(cv >= eval);
                            } else {
                                assert(cv == eval);
                            }
                        } else {
                            assert(eval >= old_beta_v);
                            assert(cv >= eval);
                        }
                        assert(child_val(b, cs, i as int, d, false, player) >= min_eval as int);
                        if min_eval < beta {
                            if eval < old_min && eval < old_beta_v {
                                assert(min_eval as int == child_val(b, cs, i as int, d, false, player));
                            }
                        }
                    } else {
                        assert(beta_v <= alpha);
                        assert(eval <= alpha);
                        assert(min_eval == eval);
                        assert(cv <= eval);
                        assert(child_val(b, cs, i as int, d, false, player) <= min_eval as int);
                    }
                    if alpha == i32::MIN && beta == i32::MAX {
                        assert(eval as int <= score_cap());
                        assert(!stop);
                        if eval < old_min {
                            assert(eval < old_beta_v);
                            assert(cv == eval);
                            assert(forall|j: int|
                                0 <= j < i ==> #[trigger] child_val(b, cs, j, d, false, player)
                                    > eval as int);
                            assert(prefix_pick(
                                b,
                                cs,
                                d,
                                false,
                                player,
                                i as int + 1,
                                i as int,
                                min_eval as int,
                            ));
                        } else {
                            let kp = choose|k: int|
                                #[trigger] prefix_pick(
                                    b,
                                    cs,
                                    d,
                                    false,
                                    player,
                                    i as int,
                                    k,
                                    min_eval as int,
                                ) && best_move == Some(cs[k]);
                            assert(prefix_pick(
                                b,
                                cs,
                                d,
                                false,
                                player,
                                i as int + 1,
                                kp,
                                min_eval as int,
                            ));
                        }
                    }
                }
                i = i + 1;
            }
            proof {
                lemma_mm_search_props(b, cs, 0, d, false, player);
                let ms = mm_search(b, cs, 0, d, false, player);
                let kk = choose|k: int| #[trigger] is_first_pick(b, cs, 0, d, false, player, k);
                assert(ms.0 == child_val(b, cs, kk, d, false, player));
                assert(mm_val(b, d, false, player) == ms.0);
                assert(mm_move(b, d, false, player) == Some(ms.1));
                if stop {
                    let kw = choose|k: int|
                        0 <= k < i && #[trigger] child_val(b, cs, k, d, false, player)
                            <= min_eval as int;
                    assert(beaten(false, child_val(b, cs, kw, d, false, player), ms.0));
                    assert(ms.0 <= min_eval as int);
                } else {
                    assert(i == n);
                    assert(beaten(false, child_val(b, cs, kk, d, false, player), min_eval as int));
                    assert(ms.0 >= min_eval as int);
                    if min_eval < beta {
                        let ke = choose|k: int|
                            0 <= k < i && min_eval as int == #[trigger] child_val(
                                b,
                                cs,
                                k,
                                d,
                                false,
                                player,
                            );
                        assert(beaten(false, child_val(b, cs, ke, d, false, player), ms.0));
                        assert(ms.0 == min_eval as int);
                    }
                    if alpha == i32::MIN && beta == i32::MAX {
                        assert(min_eval as int <= score_cap());
                        assert(min_eval < beta);
                        assert(ms.0 == min_eval as int);
                        let kp = choose|k: int|
                            #[trigger] prefix_pick(b, cs, d, false, player, i as int, k, min_eval as int)
                                && best_move == Some(cs[k]);
                        assert(child_val(b, cs, kp, d, false, player) == ms.0);
                        if kp < kk {
                            assert(strictly_beaten(
                                false,
                                child_val(b, cs, kp, d, false, player),
                                ms.0,
                            ));
                            assert(false);
                        }
                        if kk < kp {
                            assert(strictly_beaten(
                                false,
                                child_val(b, cs, kk, d, false, player),
                                min_eval as int,
                            ));
                            assert(false);
                        }
                        assert(best_move == Some(ms.1));
                    }
                }
            }
            (min_eval, best_move)
        }
    }
}

} // verus!
