//! New tiles: where they can go, and how one is put there at random.

use vstd::prelude::*;
use rand::rngs::ThreadRng;
use rand::seq::SliceRandom;
use rand::Rng;
use crate::board::{
    create_empty_board, holds_tiles, is_tile_value, lemma_tile_values, on_board, Board, Tile,
};
use crate::status::has_tile;

verus! {

/// How many draws in `DRAWS` make the new tile a 2.
pub const DRAWS_FOR_TWO: u32 = 9;

/// The number of draws of which `DRAWS_FOR_TWO` make the new tile a 2; the
/// others make it a 4.
pub const DRAWS: u32 = 10;

/// The empty cells among the first `n` cells of the grid, counted row by row
/// from the top left, as pairs of row and column.
pub open spec fn empty_cells_among(grid: Seq<Seq<nat>>, n: nat) -> Seq<(usize, usize)>
    decreases n,
{
    if n == 0 {
        Seq::empty()
    } else {
        let earlier = empty_cells_among(grid, (n - 1) as nat);
        let r = (n - 1) / 4;
        let c = (n - 1) % 4;
        if grid[r][c] == 0 {
            earlier.push((r as usize, c as usize))
        } else {
            earlier
        }
    }
}

/// The empty cells of the grid, row by row from the top left.
pub open spec fn empty_cells_of(grid: Seq<Seq<nat>>) -> Seq<(usize, usize)> {
    empty_cells_among(grid, 16)
}

/// `after` is `before` with the tile `value` in the cell at `r`, `c`.
pub open spec fn placed(
    before: Seq<Seq<nat>>,
    after: Seq<Seq<nat>>,
    r: int,
    c: int,
    value: nat,
) -> bool {
    &&& after.len() == 4
    &&& forall|i: int| 0 <= i < 4 ==> (#[trigger] after[i]).len() == 4
    &&& after[r][c] == value
    &&& forall|i: int, j: int|
        on_board(i, j) && !(i == r && j == c) ==> #[trigger] after[i][j] == before[i][j]
}

/// `after` is what a spawn makes of `before`: where `before` has an empty
/// cell, exactly one empty cell has become a 2 or a 4 and no other cell has
/// changed; where it has none, nothing has changed.
pub open spec fn spawned(before: Seq<Seq<nat>>, after: Seq<Seq<nat>>) -> bool {
    if has_tile(before, 0) {
        exists|r: int, c: int, tile: nat|
            on_board(r, c) && before[r][c] == 0 && (tile == 2 || tile == 4) && #[trigger] placed(
                before,
                after,
                r,
                c,
                tile,
            )
    } else {
        after == before
    }
}

/// The grid holds a 2 or a 4 in each of the two cells named, which are not the
/// same cell, and nothing anywhere else.
pub open spec fn holds_two_tiles(grid: Seq<Seq<nat>>, r1: int, c1: int, r2: int, c2: int) -> bool {
    &&& on_board(r1, c1)
    &&& on_board(r2, c2)
    &&& !(r1 == r2 && c1 == c2)
    &&& grid[r1][c1] == 2 || grid[r1][c1] == 4
    &&& grid[r2][c2] == 2 || grid[r2][c2] == 4
    &&& forall|i: int, j: int|
        on_board(i, j) && !(i == r1 && j == c1) && !(i == r2 && j == c2) ==> #[trigger] grid[i][j]
            == 0
}

/// A grid at the start of a game: two tiles, each a 2 or a 4, on an otherwise
/// empty board.
pub open spec fn is_opening(grid: Seq<Seq<nat>>) -> bool {
    exists|r1: int, c1: int, r2: int, c2: int| #[trigger] holds_two_tiles(grid, r1, c1, r2, c2)
}

/// A spawn on a grid of tiles and empty cells gives such a grid again.
pub proof fn lemma_spawn_keeps_tiles(before: Seq<Seq<nat>>, after: Seq<Seq<nat>>)
    requires
        holds_tiles(before),
        spawned(before, after),
    ensures
        holds_tiles(after),
{
    if has_tile(before, 0) {
        let (r, c, tile) = choose|r: int, c: int, tile: nat|
            on_board(r, c) && before[r][c] == 0 && (tile == 2 || tile == 4) && #[trigger] placed(
                before,
                after,
                r,
                c,
                tile,
            );
        lemma_tile_values(0);
        assert forall|i: int, j: int| on_board(i, j) implies is_tile_value(
            #[trigger] after[i][j],
        ) by {
            if !(i == r && j == c) {
                assert(after[i][j] == before[i][j]);
            }
        }
    }
}

/// What `empty_cells_among` lists: each entry is an empty cell among the
/// first `n`, and each empty cell among them is an entry.
pub proof fn lemma_empty_cells_among(grid: Seq<Seq<nat>>, n: nat)
    requires
        n <= 16,
    ensures
        forall|k: int|
            0 <= k < empty_cells_among(grid, n).len() ==> {
                let cell = #[trigger] empty_cells_among(grid, n)[k];
                on_board(cell.0 as int, cell.1 as int) && cell.0 * 4 + cell.1 < n
                    && grid[cell.0 as int][cell.1 as int] == 0
            },
        forall|r: int, c: int|
            on_board(r, c) && r * 4 + c < n && #[trigger] grid[r][c] == 0 ==> empty_cells_among(
                grid,
                n,
            ).contains((r as usize, c as usize)),
    decreases n,
{
    if n > 0 {
        let earlier = empty_cells_among(grid, (n - 1) as nat);
        let now = empty_cells_among(grid, n);
        lemma_empty_cells_among(grid, (n - 1) as nat);
        let r0 = (n - 1) / 4;
        let c0 = (n - 1) % 4;
        assert forall|r: int, c: int|
            on_board(r, c) && r * 4 + c < n && #[trigger] grid[r][c] == 0 implies now.contains(
            (r as usize, c as usize),
        ) by {
            if r * 4 + c < n - 1 {
                let k = choose|k: int|
                    0 <= k < earlier.len() && earlier[k] == (r as usize, c as usize);
                assert(now[k] == (r as usize, c as usize));
            } else {
                assert(r == r0 && c == c0);
                assert(now[now.len() - 1] == (r as usize, c as usize));
            }
        }
    }
}

/// The empty cells of the board, row by row from the top left.
pub fn empty_cells(board: &Board) -> (cells: Vec<(usize, usize)>)
    ensures
        cells@ == empty_cells_of(board@),
{
    let mut empty_tiles: Vec<(usize, usize)> = Vec::new();
    for i in 0..4usize
        invariant
            empty_tiles@ == empty_cells_among(board@, (4 * i) as nat),
    {
        for j in 0..4usize
            invariant
                i < 4,
                empty_tiles@ == empty_cells_among(board@, (4 * i + j) as nat),
        {
            assert((4 * i + j) / 4 == i && (4 * i + j) % 4 == j);
            if board.cells[i][j] == 0 {
                empty_tiles.push((i, j));
            }
        }
    }
    empty_tiles
}

/// The tile that a spawn places: a 2 where the draw came out in its favour,
/// else a 4.
pub fn new_tile(two: bool) -> (tile: Tile)
    ensures
        tile == if two {
            2u32
        } else {
            4u32
        },
{
    if two {
        2
    } else {
        4
    }
}

/// Puts `tile` into the chosen cell, or leaves the board as it is where no
/// cell was chosen.
pub fn place_tile(board: &mut Board, choice: Option<(usize, usize)>, tile: Tile)
    requires
        choice matches Some(cell) ==> cell.0 < 4 && cell.1 < 4,
    ensures
        match choice {
            Some(cell) => placed(
                old(board)@,
                final(board)@,
                cell.0 as int,
                cell.1 as int,
                tile as nat,
            ),
            None => *final(board) == *old(board),
        },
{
    if let Some((x, y)) = choice {
        board.cells[x][y] = tile;
    }
}

/// `rand::rngs::ThreadRng`, handed on to the calls that draw from it; nothing
/// is known of what it holds.
#[verifier::external_type_specification]
#[verifier::external_body]
pub struct ExThreadRng(ThreadRng);

/// `rand::thread_rng`: the random number generator of the calling thread.
/// Nothing is claimed of it.
pub assume_specification[ rand::thread_rng ]() -> (rng: ThreadRng);

/// `rand::seq::SliceRandom::choose` on the list of cells: a random entry of
/// the list, and none exactly when the list is empty.
#[verifier::external_body]
fn choose_cell(cells: &Vec<(usize, usize)>, rng: &mut ThreadRng) -> (choice: Option<(usize, usize)>)
    ensures
        cells.len() == 0 ==> choice is None,
        cells.len() > 0 ==> choice is Some && cells@.contains(choice->0),
{
    cells.choose(rng).copied()
}

/// `rand::Rng::gen_ratio`: a draw that comes out true in `numerator` of
/// `denominator` cases; always where the two are equal, never where
/// `numerator` is 0. Which way a draw comes out otherwise is left open.
#[verifier::external_body]
fn gen_ratio(rng: &mut ThreadRng, numerator: u32, denominator: u32) -> (hit: bool)
    requires
        denominator > 0,
        numerator <= denominator,
    ensures
        numerator == denominator ==> hit,
        numerator == 0 ==> !hit,
{
    rng.gen_ratio(numerator, denominator)
}

/// Puts one new tile into an empty cell picked at random: a 2 in nine cases of
/// ten, else a 4. A full board stays as it is.
pub fn add_random_tile(board: &mut Board)
    ensures
        spawned(old(board)@, final(board)@),
        old(board).well_formed() ==> final(board).well_formed(),
{
    let empty_tiles = empty_cells(board);
    proof {
        lemma_empty_cells_among(board@, 16);
    }
    let mut rng = rand::thread_rng();
    let choice = choose_cell(&empty_tiles, &mut rng);
    match choice {
        Some(cell) => {
            let two = gen_ratio(&mut rng, DRAWS_FOR_TWO, DRAWS);
            let value = new_tile(two);
            proof {
                let k = choose|k: int| 0 <= k < empty_tiles@.len() && empty_tiles@[k] == cell;
                assert(empty_cells_among(board@, 16)[k] == cell);
                assert(on_board(cell.0 as int, cell.1 as int));
                assert(board@[cell.0 as int][cell.1 as int] == 0);
            }
            place_tile(board, choice, value);
            proof {
                assert(placed(old(board)@, board@, cell.0 as int, cell.1 as int, value as nat));
                assert(has_tile(old(board)@, 0));
                if old(board).well_formed() {
                    lemma_spawn_keeps_tiles(old(board)@, board@);
                }
            }
        },
        None => {
            proof {
                if has_tile(board@, 0) {
                    let (r, c) = choose|r: int, c: int| on_board(r, c) && board@[r][c] == 0;
                    assert(empty_cells_among(board@, 16).contains((r as usize, c as usize)));
                }
            }
        },
    }
}

/// The board at the start of a game: two tiles spawned on an empty board.
pub fn init_board() -> (board: Board)
    ensures
        is_opening(board@),
        board.well_formed(),
{
    let mut board = create_empty_board();
    let ghost empty = board@;
    assert(on_board(0, 0) && empty[0][0] == 0);
    add_random_tile(&mut board);
    let ghost first = board@;
    proof {
        let (r1, c1, t1) = choose|r: int, c: int, tile: nat|
            on_board(r, c) && empty[r][c] == 0 && (tile == 2 || tile == 4) && #[trigger] placed(
                empty,
                first,
                r,
                c,
                tile,
            );
        let r0 = if r1 == 0 {
            1int
        } else {
            0int
        };
        assert(on_board(r0, 0) && first[r0][0] == empty[r0][0]);
        assert(on_board(r0, 0) && first[r0][0] == 0);
    }
    add_random_tile(&mut board);
    proof {
        let (r1, c1, t1) = choose|r: int, c: int, tile: nat|
            on_board(r, c) && empty[r][c] == 0 && (tile == 2 || tile == 4) && #[trigger] placed(
                empty,
                first,
                r,
                c,
                tile,
            );
        let (r2, c2, t2) = choose|r: int, c: int, tile: nat|
            on_board(r, c) && first[r][c] == 0 && (tile == 2 || tile == 4) && #[trigger] placed(
                first,
                board@,
                r,
                c,
                tile,
            );
        assert forall|i: int, j: int|
            on_board(i, j) && !(i == r1 && j == c1) && !(i == r2 && j == c2) implies #[trigger] board@[i][j]
            == 0 by {
            assert(board@[i][j] == first[i][j]);
            assert(first[i][j] == empty[i][j]);
        }
        assert(board@[r1][c1] == first[r1][c1]);
        assert(holds_two_tiles(board@, r1, c1, r2, c2));
    }
    board
}

} // verus!
