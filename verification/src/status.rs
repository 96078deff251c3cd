//! Whether the game has ended, and how.

use vstd::prelude::*;
use crate::board::{on_board, Board, Tile};

verus! {

/// The tile that wins the game.
pub const WINNING_TILE: Tile = 2048;

/// Where the game stands.
#[derive(Clone, Copy, Debug, PartialEq, Eq)]
pub enum GameStatus {
    /// A move can still change the board.
    InProgress,
    /// The board holds the winning tile.
    Won,
    /// The board is full and no two neighbours are equal.
    Lost,
}

/// Some cell of the grid holds `value`.
pub open spec fn has_tile(grid: Seq<Seq<nat>>, value: nat) -> bool {
    exists|r: int, c: int| on_board(r, c) && #[trigger] grid[r][c] == value
}

/// Some cell of the grid equals its neighbour to the right or the one below.
pub open spec fn has_equal_neighbours(grid: Seq<Seq<nat>>) -> bool {
    exists|r: int, c: int| on_board(r, c) && #[trigger] equals_a_neighbour(grid, r, c)
}

/// The cell equals its neighbour to the right or the one below.
pub open spec fn equals_a_neighbour(grid: Seq<Seq<nat>>, r: int, c: int) -> bool {
    (c < 3 && grid[r][c] == grid[r][c + 1]) || (r < 3 && grid[r][c] == grid[r + 1][c])
}

/// The status of a grid: won as soon as the winning tile is on it, whatever
/// else is; otherwise in progress while a cell is empty or two neighbours are
/// equal; otherwise lost.
pub open spec fn status_of(grid: Seq<Seq<nat>>) -> GameStatus {
    if has_tile(grid, WINNING_TILE as nat) {
        GameStatus::Won
    } else if has_tile(grid, 0) || has_equal_neighbours(grid) {
        GameStatus::InProgress
    } else {
        GameStatus::Lost
    }
}

/// A grid with the winning tile on it is won, whatever else is on it: empty
/// cells or equal neighbours make no difference.
pub proof fn lemma_winning_tile_wins(grid: Seq<Seq<nat>>)
    requires
        has_tile(grid, WINNING_TILE as nat),
    ensures
        status_of(grid) == GameStatus::Won,
{
}

/// A full grid without the winning tile and without two equal neighbours is
/// lost, not won.
pub proof fn lemma_stuck_board_is_lost(grid: Seq<Seq<nat>>)
    requires
        !has_tile(grid, WINNING_TILE as nat),
        !has_tile(grid, 0),
        !has_equal_neighbours(grid),
    ensures
        status_of(grid) == GameStatus::Lost,
{
}

/// A full grid without the winning tile on which two neighbours are equal is
/// still in progress.
pub proof fn lemma_full_board_with_pair_goes_on(grid: Seq<Seq<nat>>)
    requires
        !has_tile(grid, WINNING_TILE as nat),
        !has_tile(grid, 0),
        has_equal_neighbours(grid),
    ensures
        status_of(grid) == GameStatus::InProgress,
{
}

/// Whether some cell of the board holds `value`.
pub fn contains_tile(board: &Board, value: Tile) -> (found: bool)
    ensures
        found == has_tile(board@, value as nat),
{
    for r in 0..4usize
        invariant
            forall|i: int, j: int| 0 <= i < r && 0 <= j < 4 ==> #[trigger] board@[i][j] != value,
    {
        for c in 0..4usize
            invariant
                r < 4,
                forall|i: int, j: int|
                    0 <= i < r && 0 <= j < 4 ==> #[trigger] board@[i][j] != value,
                forall|j: int| 0 <= j < c ==> #[trigger] board@[r as int][j] != value,
        {
            if board.cells[r][c] == value {
                assert(on_board(r as int, c as int) && board@[r as int][c as int] == value);
                return true;
            }
        }
    }
    false
}

/// Whether two cells next to each other, in a row or in a column, are equal.
pub fn contains_equal_neighbours(board: &Board) -> (found: bool)
    ensures
        found == has_equal_neighbours(board@),
{
    for i in 0..4usize
        invariant
            forall|r: int, c: int| 0 <= r < i && 0 <= c < 4 ==> !equals_a_neighbour(board@, r, c),
    {
        for j in 0..4usize
            invariant
                i < 4,
                forall|r: int, c: int|
                    0 <= r < i && 0 <= c < 4 ==> !equals_a_neighbour(board@, r, c),
                forall|c: int| 0 <= c < j ==> !equals_a_neighbour(board@, i as int, c),
        {
            if j < 3 && board.cells[i][j] == board.cells[i][j + 1] {
                assert(on_board(i as int, j as int) && equals_a_neighbour(
                    board@,
                    i as int,
                    j as int,
                ));
                return true;
            }
            if i < 3 && board.cells[i][j] == board.cells[i + 1][j] {
                assert(on_board(i as int, j as int) && equals_a_neighbour(
                    board@,
                    i as int,
                    j as int,
                ));
                return true;
            }
        }
    }
    false
}

/// Where the game stands on this board.
pub fn game_status(board: &Board) -> (status: GameStatus)
    ensures
        status == status_of(board@),
{
    if contains_tile(board, WINNING_TILE) {
        return GameStatus::Won;
    }
    if contains_tile(board, 0) {
        return GameStatus::InProgress;
    }
    if contains_equal_neighbours(board) {
        return GameStatus::InProgress;
    }
    GameStatus::Lost
}

/// Whether play stops on this board: it holds the winning tile, or it is full
/// and no two neighbours are equal.
pub fn is_game_over(board: &Board) -> (over: bool)
    ensures
        over == (has_tile(board@, WINNING_TILE as nat) || (!has_tile(board@, 0)
            && !has_equal_neighbours(board@))),
        over == (status_of(board@) != GameStatus::InProgress),
{
    match game_status(board) {
        GameStatus::InProgress => false,
        GameStatus::Won => true,
        GameStatus::Lost => true,
    }
}

} // verus!
