//! The 4×4 grid of tiles and its mathematical model.

use vstd::arithmetic::power2::{lemma2_to64, lemma_pow2_unfold, pow2};
use vstd::prelude::*;

verus! {

/// A cell's value: 0 for an empty cell, otherwise the value of the tile in it.
pub type Tile = u32;

/// The largest value of a tile that can still merge with an equal one: twice
/// a larger value does not fit in a `Tile`.
pub const MAX_MERGEABLE: Tile = 0x7fff_ffff;

/// The cells of a line as numbers.
pub open spec fn tile_values(cells: Seq<Tile>) -> Seq<nat> {
    Seq::new(cells.len(), |i: int| cells[i] as nat)
}

/// The grid. `cells[r][c]` is the cell in row `r` (0 at the top) and column `c`
/// (0 at the left).
#[derive(Clone, Copy, Debug, PartialEq, Eq)]
pub struct Board {
    pub cells: [[Tile; 4]; 4],
}

impl View for Board {
    type V = Seq<Seq<nat>>;

    /// The board as four rows of four numbers, the top row first.
    open spec fn view(&self) -> Seq<Seq<nat>> {
        Seq::new(4, |r: int| Seq::new(4, |c: int| self.cells[r][c] as nat))
    }
}

/// Column `c` of a grid, read from top to bottom.
pub open spec fn column(grid: Seq<Seq<nat>>, c: int) -> Seq<nat> {
    Seq::new(grid.len(), |r: int| grid[r][c])
}

/// What a cell can hold in a game: nothing, or a power of two from 2 up.
pub open spec fn is_tile_value(value: nat) -> bool {
    value == 0 || exists|k: nat| k >= 1 && value == #[trigger] pow2(k)
}

/// Whether `r` and `c` are the row and column of a cell.
pub open spec fn on_board(r: int, c: int) -> bool {
    0 <= r < 4 && 0 <= c < 4
}

/// The grid has four rows of four cells.
pub open spec fn is_grid(grid: Seq<Seq<nat>>) -> bool {
    grid.len() == 4 && forall|r: int| 0 <= r < 4 ==> (#[trigger] grid[r]).len() == 4
}

/// Twice the value of any cell of the grid fits in a `Tile`.
pub open spec fn doubling_fits(grid: Seq<Seq<nat>>) -> bool {
    forall|r: int, c: int| on_board(r, c) ==> #[trigger] grid[r][c] <= MAX_MERGEABLE
}

/// Every cell of the grid holds what a cell can hold in a game.
pub open spec fn holds_tiles(grid: Seq<Seq<nat>>) -> bool {
    forall|r: int, c: int| on_board(r, c) ==> is_tile_value(#[trigger] grid[r][c])
}

impl Board {
    /// The value of the cell in row `r` and column `c`.
    pub open spec fn at(&self, r: int, c: int) -> nat {
        self@[r][c]
    }

    /// Row `r`, read from left to right.
    pub open spec fn row(&self, r: int) -> Seq<nat> {
        self@[r]
    }

    /// Column `c`, read from top to bottom.
    pub open spec fn col(&self, c: int) -> Seq<nat> {
        column(self@, c)
    }

    /// Every cell holds what a cell can hold in a game.
    pub open spec fn well_formed(&self) -> bool {
        holds_tiles(self@)
    }

    /// Every tile of the board can be doubled.
    pub open spec fn mergeable(&self) -> bool {
        doubling_fits(self@)
    }
}

/// Twice a tile is a tile, and 2 and 4 are tiles.
pub proof fn lemma_tile_values(value: nat)
    requires
        is_tile_value(value),
    ensures
        is_tile_value(2 * value),
        is_tile_value(2),
        is_tile_value(4),
{
    lemma2_to64();
    assert(2 == pow2(1));
    assert(4 == pow2(2));
    if value != 0 {
        let k = choose|k: nat| k >= 1 && value == #[trigger] pow2(k);
        lemma_pow2_unfold(k + 1);
        assert(2 * value == pow2(k + 1));
    }
}

/// Boards with the same numbers in their cells are the same board.
pub proof fn lemma_board_equality(a: Board, b: Board)
    ensures
        a@ == b@ <==> a == b,
{
    if a@ == b@ {
        assert forall|r: int| 0 <= r < 4 implies a.cells[r] == b.cells[r] by {
            assert forall|c: int| 0 <= c < 4 implies a.cells[r][c] == b.cells[r][c] by {
                assert(a@[r][c] == b@[r][c]);
            }
            assert(a.cells[r] =~= b.cells[r]);
        }
        assert(a.cells =~= b.cells);
    }
}

/// A board on which every cell is empty.
pub fn create_empty_board() -> (board: Board)
    ensures
        forall|r: int, c: int| on_board(r, c) ==> #[trigger] board@[r][c] == 0,
        board.well_formed(),
{
    Board { cells: [[0, 0, 0, 0], [0, 0, 0, 0], [0, 0, 0, 0], [0, 0, 0, 0]] }
}

/// Whether every tile of the board can be doubled, as a move requires.
pub fn is_mergeable(board: &Board) -> (fits: bool)
    ensures
        fits == board.mergeable(),
{
    for r in 0..4usize
        invariant
            forall|i: int, j: int|
                0 <= i < r && 0 <= j < 4 ==> #[trigger] board@[i][j] <= MAX_MERGEABLE,
    {
        for c in 0..4usize
            invariant
                r < 4,
                forall|i: int, j: int|
                    0 <= i < r && 0 <= j < 4 ==> #[trigger] board@[i][j] <= MAX_MERGEABLE,
                forall|j: int| 0 <= j < c ==> #[trigger] board@[r as int][j] <= MAX_MERGEABLE,
        {
            if board.cells[r][c] > MAX_MERGEABLE {
                assert(on_board(r as int, c as int) && board@[r as int][c as int]
                    > MAX_MERGEABLE);
                return false;
            }
        }
    }
    true
}

/// Whether the two boards differ in any cell.
pub fn board_changed(new_board: &Board, old_board: &Board) -> (changed: bool)
    ensures
        changed == (new_board@ != old_board@),
{
    for r in 0..4usize
        invariant
            forall|i: int, j: int|
                0 <= i < r && 0 <= j < 4 ==> #[trigger] new_board.at(i, j) == old_board.at(i, j),
    {
        for c in 0..4usize
            invariant
                r < 4,
                forall|i: int, j: int|
                    0 <= i < r && 0 <= j < 4 ==> #[trigger] new_board.at(i, j) == old_board.at(
                        i,
                        j,
                    ),
                forall|j: int| 0 <= j < c ==> new_board.at(r as int, j) == old_board.at(r as int, j),
        {
            if new_board.cells[r][c] != old_board.cells[r][c] {
                assert(new_board@[r as int][c as int] != old_board@[r as int][c as int]);
                return true;
            }
        }
    }
    proof {
        assert forall|i: int| 0 <= i < 4 implies new_board@[i] == old_board@[i] by {
            assert forall|j: int| 0 <= j < 4 implies new_board@[i][j] == old_board@[i][j] by {
                assert(new_board.at(i, j) == old_board.at(i, j));
            }
            assert(new_board@[i] =~= old_board@[i]);
        }
        assert(new_board@ =~= old_board@);
    }
    false
}

} // verus!
