//! The four moves. Each slides all tiles toward one edge and merges equal
//! neighbours along the way, line by line.

use vstd::prelude::*;
use crate::board::{
    column, holds_tiles, is_grid, is_tile_value, on_board, tile_values, Board, Tile,
    MAX_MERGEABLE,
};
use crate::line::{
    holds_tile_values, is_compact, lemma_merged_pair, lemma_merged_single, lemma_pass_ends,
    lemma_pass_keeps, lemma_pass_merges, lemma_pass_starts, lemma_slide_tile_values,
    lemma_stack_advances, lemma_stack_ends, lemma_stack_merges, lemma_stack_places,
    lemma_stack_skips, lemma_stack_starts, lemma_tiles_are_cells, lemma_tiles_of_padded,
    lemma_tiles_push, merged, padded, pass_reached, slide, slide_merging_from_back,
    stack_reached, tiles,
};
use crate::lists::reverse;

verus! {

/// The grid after a move to the left: every row has slid toward its first
/// cell.
pub open spec fn slid_left(grid: Seq<Seq<nat>>) -> Seq<Seq<nat>> {
    Seq::new(4, |r: int| slide(grid[r]))
}

/// The grid after a move to the right: every row has slid toward its last
/// cell.
pub open spec fn slid_right(grid: Seq<Seq<nat>>) -> Seq<Seq<nat>> {
    Seq::new(4, |r: int| slide(grid[r].reverse()).reverse())
}

/// The grid after a move down: every column has slid toward its bottom cell.
pub open spec fn slid_down(grid: Seq<Seq<nat>>) -> Seq<Seq<nat>> {
    Seq::new(4, |r: int| Seq::new(4, |c: int| slide(column(grid, c).reverse()).reverse()[r]))
}

/// The grid after a move up: every column has slid toward its top cell, its
/// tiles merging from the bottom.
pub open spec fn slid_up(grid: Seq<Seq<nat>>) -> Seq<Seq<nat>> {
    Seq::new(4, |r: int| Seq::new(4, |c: int| slide_merging_from_back(column(grid, c))[r]))
}

/// A move on a grid of tiles and empty cells gives such a grid again:
/// whatever the direction, every cell then holds nothing or a power of two
/// from 2 up.
pub proof fn lemma_moves_keep_tiles(grid: Seq<Seq<nat>>)
    requires
        is_grid(grid),
        holds_tiles(grid),
    ensures
        holds_tiles(slid_left(grid)),
        holds_tiles(slid_right(grid)),
        holds_tiles(slid_down(grid)),
        holds_tiles(slid_up(grid)),
{
    assert forall|r: int| 0 <= r < 4 implies holds_tile_values(#[trigger] grid[r]) by {
        assert forall|c: int| 0 <= c < grid[r].len() implies is_tile_value(
            #[trigger] grid[r][c],
        ) by {
            assert(on_board(r, c));
        }
    }
    assert forall|c: int| 0 <= c < 4 implies holds_tile_values(#[trigger] column(grid, c)) by {
        assert forall|r: int| 0 <= r < 4 implies is_tile_value(#[trigger] column(grid, c)[r]) by {
            assert(on_board(r, c));
            assert(column(grid, c)[r] == grid[r][c]);
        }
    }
    assert forall|r: int, c: int| on_board(r, c) implies is_tile_value(
        #[trigger] slid_left(grid)[r][c],
    ) by {
        assert(holds_tile_values(grid[r]));
        lemma_slide_tile_values(grid[r]);
    }
    assert forall|r: int, c: int| on_board(r, c) implies is_tile_value(
        #[trigger] slid_right(grid)[r][c],
    ) by {
        assert(holds_tile_values(grid[r]));
        lemma_slide_tile_values(grid[r]);
    }
    assert forall|r: int, c: int| on_board(r, c) implies is_tile_value(
        #[trigger] slid_down(grid)[r][c],
    ) by {
        assert(holds_tile_values(column(grid, c)));
        lemma_slide_tile_values(column(grid, c));
    }
    assert forall|r: int, c: int| on_board(r, c) implies is_tile_value(
        #[trigger] slid_up(grid)[r][c],
    ) by {
        assert(holds_tile_values(column(grid, c)));
        lemma_slide_tile_values(column(grid, c));
    }
}

/// Every tile of the line can be doubled.
spec fn fits(cells: Seq<Tile>) -> bool {
    forall|j: int| 0 <= j < cells.len() ==> cells[j] <= MAX_MERGEABLE
}

/// Shifts the tiles of a line to its front, keeping their order.
fn compact_toward_start(line: &mut [Tile; 4])
    ensures
        tile_values(final(line)@) == padded(tiles(tile_values(old(line)@)), 4),
        is_compact(tile_values(final(line)@)),
        fits(old(line)@) ==> fits(final(line)@),
{
    let ghost orig = tile_values(line@);
    let mut last_non_zero: usize = 0;
    for i in 0..4usize
        invariant
            orig.len() == 4,
            fits(old(line)@) ==> fits(line@),
            last_non_zero <= i,
            tile_values(line@).take(last_non_zero as int) == tiles(orig.take(i as int)),
            forall|j: int| 0 <= j < last_non_zero ==> line@[j] != 0,
            forall|j: int| last_non_zero <= j < i ==> line@[j] == 0,
            forall|j: int| i <= j < 4 ==> line@[j] as nat == orig[j],
    {
        proof {
            assert(orig.take(i + 1) =~= orig.take(i as int).push(orig[i as int]));
            lemma_tiles_push(orig.take(i as int), orig[i as int]);
        }
        let ghost before = tile_values(line@);
        if line[i] != 0 {
            let tile = line[i];
            line[i] = line[last_non_zero];
            line[last_non_zero] = tile;
            assert(tile_values(line@).take(last_non_zero + 1) =~= before.take(
                last_non_zero as int,
            ).push(tile as nat));
            last_non_zero += 1;
        }
    }
    proof {
        assert(orig.take(4) =~= orig);
        assert(tile_values(line@) =~= padded(tiles(orig), 4));
    }
}

/// One pass from the front of a compact line: a tile equal to the next one
/// takes it in and doubles, and leaves an empty cell behind.
fn merge_toward_start(line: &mut [Tile; 4])
    requires
        is_compact(tile_values(old(line)@)),
        fits(old(line)@),
    ensures
        tiles(tile_values(final(line)@)) == merged(tiles(tile_values(old(line)@))),
{
    let ghost orig = tile_values(line@);
    let ghost goal = merged(tiles(orig));
    proof {
        lemma_pass_starts(orig);
    }
    for i in 0..3usize
        invariant
            orig.len() == 4,
            is_compact(orig),
            forall|j: int| 0 <= j < 4 ==> orig[j] <= MAX_MERGEABLE,
            pass_reached(tile_values(line@), i as int, goal),
            forall|j: int| i < j < 4 ==> line@[j] as nat == orig[j],
            line@[i as int] as nat == orig[i as int] || line@[i as int] == 0,
    {
        let ghost cur = tile_values(line@);
        if line[i] == line[i + 1] && line[i] != 0 {
            line[i] *= 2;
            line[i + 1] = 0;
            proof {
                lemma_pass_merges(cur, i as int, goal);
                assert(tile_values(line@) =~= cur.update(i as int, 2 * cur[i as int]).update(
                    i + 1,
                    0,
                ));
            }
        } else {
            proof {
                assert(cur[i + 1] == orig[i + 1]);
                if cur[i + 1] == 0 {
                    assert forall|j: int| i < j < 4 implies cur[j] == 0 by {
                        assert(cur[j] == orig[j]);
                    }
                }
                lemma_pass_keeps(cur, i as int, goal);
            }
        }
    }
    proof {
        lemma_pass_ends(tile_values(line@), goal);
    }
}

/// Slides all tiles to the left edge. In each row the tiles keep their order;
/// two equal neighbours merge into one tile of twice the value, the pair
/// nearest the left edge first, and a merged tile merges no further.
pub fn move_left(board: &mut Board)
    requires
        old(board).mergeable(),
    ensures
        final(board)@ == slid_left(old(board)@),
        old(board).well_formed() ==> final(board).well_formed(),
{
    for r in 0..4usize
        invariant
            old(board).mergeable(),
            forall|k: int| 0 <= k < r ==> #[trigger] board.row(k) == slide(old(board).row(k)),
            forall|k: int| r <= k < 4 ==> #[trigger] board.row(k) == old(board).row(k),
    {
        let ghost row = board.row(r as int);
        let ghost before = *board;
        let mut line = board.cells[r];
        proof {
            assert(tile_values(line@) =~= row);
            assert(row == old(board).row(r as int));
            assert(fits(line@)) by {
                assert forall|j: int| 0 <= j < 4 implies line@[j] <= MAX_MERGEABLE by {
                    assert(row[j] == old(board)@[r as int][j]);
                }
            }
            lemma_tiles_of_padded(row, 4);
        }
        compact_toward_start(&mut line);
        merge_toward_start(&mut line);
        compact_toward_start(&mut line);
        board.cells[r] = line;
        proof {
            assert(board.row(r as int) =~= tile_values(line@));
            assert forall|k: int| 0 <= k < 4 && k != r implies #[trigger] board.row(k)
                == before.row(k) by {
                assert(board.row(k) =~= before.row(k));
            }
        }
    }
    proof {
        let goal = slid_left(old(board)@);
        if old(board).well_formed() {
            lemma_moves_keep_tiles(old(board)@);
        }
        assert forall|r: int| 0 <= r < 4 implies board@[r] == goal[r] by {
            assert(board.row(r) == board@[r]);
        }
        assert(board@ =~= goal);
    }
}

/// Shifts the tiles of a line to its end, keeping their order.
fn compact_toward_end(line: &mut [Tile; 4])
    ensures
        tile_values(final(line)@).reverse() == padded(
            tiles(tile_values(old(line)@).reverse()),
            4,
        ),
        is_compact(tile_values(final(line)@).reverse()),
        fits(old(line)@) ==> fits(final(line)@),
{
    let ghost orig = tile_values(line@).reverse();
    let ghost mut placed: int = 0;
    let mut last_non_zero: usize = 3;
    let mut i: usize = 4;
    while i > 0
        invariant
            orig.len() == 4,
            i <= 4,
            fits(old(line)@) ==> fits(line@),
            0 <= placed <= 4 - i,
            last_non_zero == if placed < 4 {
                3 - placed
            } else {
                0
            },
            tile_values(line@).reverse().take(placed) == tiles(orig.take(4 - i)),
            forall|j: int| 0 <= j < placed ==> tile_values(line@).reverse()[j] != 0,
            forall|j: int| placed <= j < 4 - i ==> tile_values(line@).reverse()[j] == 0,
            forall|j: int| 4 - i <= j < 4 ==> tile_values(line@).reverse()[j] == orig[j],
        decreases i,
    {
        i -= 1;
        proof {
            assert(orig.take(4 - i) =~= orig.take(3 - i).push(orig[3 - i]));
            lemma_tiles_push(orig.take(3 - i), orig[3 - i]);
        }
        let ghost before = tile_values(line@).reverse();
        assert(before[3 - i] == line@[i as int]);
        if line[i] != 0 {
            let tile = line[i];
            line[i] = line[last_non_zero];
            line[last_non_zero] = tile;
            assert(tile_values(line@).reverse() =~= before.update(3 - i, before[placed]).update(
                placed,
                tile as nat,
            ));
            assert(tile_values(line@).reverse().take(placed + 1) =~= before.take(placed).push(
                tile as nat,
            ));
            if last_non_zero > 0 {
                last_non_zero -= 1;
            }
            proof {
                placed = placed + 1;
            }
        }
    }
    proof {
        assert(orig.take(4) =~= orig);
        assert(tile_values(line@).reverse() =~= padded(tiles(orig), 4));
    }
}

/// One pass from the end of a line that is compact toward its end: a tile
/// equal to the one before it takes that one in and doubles, and leaves an
/// empty cell behind.
fn merge_toward_end(line: &mut [Tile; 4])
    requires
        is_compact(tile_values(old(line)@).reverse()),
        fits(old(line)@),
    ensures
        tiles(tile_values(final(line)@).reverse()) == merged(
            tiles(tile_values(old(line)@).reverse()),
        ),
{
    let ghost orig = tile_values(line@).reverse();
    let ghost goal = merged(tiles(orig));
    proof {
        lemma_pass_starts(orig);
    }
    let mut i: usize = 3;
    while i > 0
        invariant
            orig.len() == 4,
            i <= 3,
            is_compact(orig),
            forall|j: int| 0 <= j < 4 ==> orig[j] <= MAX_MERGEABLE,
            pass_reached(tile_values(line@).reverse(), 3 - i, goal),
            forall|j: int| 3 - i < j < 4 ==> tile_values(line@).reverse()[j] == orig[j],
            line@[i as int] as nat == orig[3 - i] || line@[i as int] == 0,
        decreases i,
    {
        i -= 1;
        let ghost cur = tile_values(line@).reverse();
        if line[i] == line[i + 1] && line[i] != 0 {
            line[i + 1] *= 2;
            line[i] = 0;
            proof {
                lemma_pass_merges(cur, 2 - i, goal);
                assert(tile_values(line@).reverse() =~= cur.update(2 - i, 2 * cur[2 - i]).update(
                    3 - i,
                    0,
                ));
            }
        } else {
            proof {
                assert(cur[3 - i] == orig[3 - i]);
                if cur[3 - i] == 0 {
                    assert forall|j: int| 2 - i < j < 4 implies cur[j] == 0 by {
                        assert(cur[j] == orig[j]);
                    }
                }
                lemma_pass_keeps(cur, 2 - i, goal);
            }
        }
    }
    proof {
        lemma_pass_ends(tile_values(line@).reverse(), goal);
    }
}

/// Slides all tiles to the right edge. In each row the tiles keep their
/// order; two equal neighbours merge into one tile of twice the value, the
/// pair nearest the right edge first, and a merged tile merges no further.
pub fn move_right(board: &mut Board)
    requires
        old(board).mergeable(),
    ensures
        final(board)@ == slid_right(old(board)@),
        old(board).well_formed() ==> final(board).well_formed(),
{
    for r in 0..4usize
        invariant
            old(board).mergeable(),
            forall|k: int|
                0 <= k < r ==> #[trigger] board.row(k) == slide(
                    old(board).row(k).reverse(),
                ).reverse(),
            forall|k: int| r <= k < 4 ==> #[trigger] board.row(k) == old(board).row(k),
    {
        let ghost row = board.row(r as int);
        let ghost before = *board;
        let mut line = board.cells[r];
        proof {
            assert(tile_values(line@) =~= row);
            assert(row == old(board).row(r as int));
            assert(fits(line@)) by {
                assert forall|j: int| 0 <= j < 4 implies line@[j] <= MAX_MERGEABLE by {
                    assert(row[j] == old(board)@[r as int][j]);
                }
            }
            lemma_tiles_of_padded(row.reverse(), 4);
        }
        compact_toward_end(&mut line);
        merge_toward_end(&mut line);
        compact_toward_end(&mut line);
        board.cells[r] = line;
        proof {
            assert(tile_values(line@).reverse().reverse() =~= tile_values(line@));
            assert(board.row(r as int) =~= tile_values(line@));
            assert forall|k: int| 0 <= k < 4 && k != r implies #[trigger] board.row(k)
                == before.row(k) by {
                assert(board.row(k) =~= before.row(k));
            }
        }
    }
    proof {
        let goal = slid_right(old(board)@);
        if old(board).well_formed() {
            lemma_moves_keep_tiles(old(board)@);
        }
        assert forall|r: int| 0 <= r < 4 implies board@[r] == goal[r] by {
            assert(board.row(r) == board@[r]);
        }
        assert(board@ =~= goal);
    }
}

/// Slides all tiles to the bottom edge. In each column the tiles keep their
/// order; two equal neighbours merge into one tile of twice the value, the
/// pair nearest the bottom edge first, and a merged tile merges no further.
pub fn move_down(board: &mut Board)
    requires
        old(board).mergeable(),
    ensures
        final(board)@ == slid_down(old(board)@),
        old(board).well_formed() ==> final(board).well_formed(),
{
    for col in 0..4usize
        invariant
            old(board).mergeable(),
            forall|k: int|
                0 <= k < col ==> #[trigger] board.col(k) == slide(
                    old(board).col(k).reverse(),
                ).reverse(),
            forall|k: int| col <= k < 4 ==> #[trigger] board.col(k) == old(board).col(k),
    {
        let ghost before = *board;
        let ghost line = board.col(col as int).reverse();
        let ghost goal = merged(tiles(line));
        let mut temp_column: [Tile; 4] = [0, 0, 0, 0];
        let mut write_index: usize = 3;
        proof {
            lemma_stack_starts(line);
            assert(line.skip(0) =~= line);
            assert(tile_values(temp_column@).reverse().take(0) =~= Seq::<nat>::empty());
            assert forall|j: int| 0 <= j < 4 implies line[j] <= MAX_MERGEABLE by {
                assert(board.col(col as int) == old(board).col(col as int));
                assert(line[j] == old(board).col(col as int)[3 - j]);
                assert(line[j] == old(board)@[3 - j][col as int]);
            }
        }
        let mut row: usize = 4;
        while row > 0
            invariant
                row <= 4,
                write_index <= 3,
                col < 4,
                *board == before,
                line == before.col(col as int).reverse(),
                forall|j: int| 0 <= j < 4 ==> line[j] <= MAX_MERGEABLE,
                stack_reached(
                    tile_values(temp_column@).reverse().take(3 - write_index),
                    tile_values(temp_column@).reverse()[3 - write_index],
                    line.skip(4 - row),
                    goal,
                ),
                forall|j: int|
                    0 <= j < 3 - write_index ==> tile_values(temp_column@).reverse()[j] != 0,
                forall|j: int|
                    3 - write_index < j < 4 ==> tile_values(temp_column@).reverse()[j] == 0,
                temp_column@[write_index as int] != 0 ==> 4 - write_index <= 4 - row,
                temp_column@[write_index as int] == 0 ==> 3 - write_index <= 4 - row,
                temp_column@[write_index as int] <= MAX_MERGEABLE,
            decreases row,
        {
            row -= 1;
            let tile = board.cells[row][col];
            let ghost stack = tile_values(temp_column@).reverse();
            let ghost done = stack.take(3 - write_index);
            let ghost open = stack[3 - write_index];
            let ghost rest = line.skip(3 - row);
            proof {
                assert(rest.skip(1) =~= line.skip(4 - row));
                assert(rest[0] == line[3 - row]);
                assert(line[3 - row] == before.col(col as int)[row as int]);
                assert(rest[0] == tile);
                assert(open == temp_column@[write_index as int]);
            }
            if tile != 0 {
                if temp_column[write_index] == 0 {
                    temp_column[write_index] = tile;
                    proof {
                        lemma_stack_places(done, rest, goal);
                        assert(tile_values(temp_column@).reverse() =~= stack.update(
                            3 - write_index,
                            tile as nat,
                        ));
                        assert(tile_values(temp_column@).reverse().take(3 - write_index)
                            =~= done);
                    }
                } else if temp_column[write_index] == tile {
                    temp_column[write_index] *= 2;
                    proof {
                        lemma_stack_merges(done, open, rest, goal);
                        assert(tile_values(temp_column@).reverse() =~= stack.update(
                            3 - write_index,
                            2 * open,
                        ));
                        assert(tile_values(temp_column@).reverse().take(4 - write_index)
                            =~= done.push(2 * open));
                    }
                    if write_index > 0 {
                        write_index -= 1;
                    }
                } else {
                    proof {
                        lemma_stack_advances(done, open, rest, goal);
                    }
                    if write_index > 0 {
                        write_index -= 1;
                    }
                    temp_column[write_index] = tile;
                    proof {
                        assert(tile_values(temp_column@).reverse() =~= stack.update(
                            3 - write_index,
                            tile as nat,
                        ));
                        assert(tile_values(temp_column@).reverse().take(3 - write_index)
                            =~= done.push(open));
                    }
                }
            } else {
                proof {
                    lemma_stack_skips(done, open, rest, goal);
                }
            }
        }
        proof {
            let stack = tile_values(temp_column@).reverse();
            assert(line.skip(4) =~= Seq::<nat>::empty());
            lemma_stack_ends(stack.take(3 - write_index), stack[3 - write_index], goal);
            assert(stack.take(3 - write_index).push(stack[3 - write_index]) =~= stack.take(
                4 - write_index,
            ));
            assert(stack =~= padded(goal, 4));
            assert(stack.reverse() =~= tile_values(temp_column@));
        }
        for row in 0..4usize
            invariant
                col < 4,
                forall|r: int| 0 <= r < row ==> board.at(r, col as int) == temp_column@[r],
                forall|r: int| row <= r < 4 ==> board.at(r, col as int) == before.at(r, col as int),
                forall|r: int, c: int|
                    0 <= r < 4 && 0 <= c < 4 && c != col ==> board.at(r, c) == before.at(r, c),
        {
            board.cells[row][col] = temp_column[row];
        }
        proof {
            assert(board.col(col as int) =~= tile_values(temp_column@));
            assert forall|k: int| 0 <= k < 4 && k != col implies #[trigger] board.col(k)
                == before.col(k) by {
                assert forall|r: int| 0 <= r < 4 implies board.col(k)[r] == before.col(k)[r] by {
                    assert(board.at(r, k) == before.at(r, k));
                }
                assert(board.col(k) =~= before.col(k));
            }
        }
    }
    proof {
        let goal = slid_down(old(board)@);
        if old(board).well_formed() {
            lemma_moves_keep_tiles(old(board)@);
        }
        assert forall|r: int| 0 <= r < 4 implies board@[r] == goal[r] by {
            assert forall|c: int| 0 <= c < 4 implies board@[r][c] == goal[r][c] by {
                assert(board.col(c)[r] == board@[r][c]);
            }
            assert(board@[r] =~= goal[r]);
        }
        assert(board@ =~= goal);
    }
}

/// Slides all tiles to the top edge. In each column the tiles keep their
/// order; two equal neighbours merge into one tile of twice the value, and a
/// merged tile merges no further. Unlike in the other three moves, the pair
/// nearest the bottom edge, the edge that the tiles leave, merges first.
pub fn move_up(board: &mut Board)
    requires
        old(board).mergeable(),
    ensures
        final(board)@ == slid_up(old(board)@),
        old(board).well_formed() ==> final(board).well_formed(),
{
    for col in 0..4usize
        invariant
            old(board).mergeable(),
            forall|k: int|
                0 <= k < col ==> #[trigger] board.col(k) == slide_merging_from_back(
                    old(board).col(k),
                ),
            forall|k: int| col <= k < 4 ==> #[trigger] board.col(k) == old(board).col(k),
    {
        let ghost before = *board;
        let ghost line = board.col(col as int);
        let ghost goal = merged(tiles(line).reverse());
        proof {
            assert(line.take(0) =~= Seq::<nat>::empty());
            assert forall|j: int| 0 <= j < 4 implies line[j] <= MAX_MERGEABLE by {
                assert(board.col(col as int) == old(board).col(col as int));
                assert(line[j] == old(board)@[j][col as int]);
            }
        }
        let mut compacted: Vec<Tile> = Vec::new();
        for row in 0..4usize
            invariant
                col < 4,
                *board == before,
                line == before.col(col as int),
                tile_values(compacted@) == tiles(line.take(row as int)),
        {
            proof {
                assert(line.take(row + 1) =~= line.take(row as int).push(line[row as int]));
                lemma_tiles_push(line.take(row as int), line[row as int]);
            }
            if board.cells[row][col] != 0 {
                let ghost earlier = tile_values(compacted@);
                compacted.push(board.cells[row][col]);
                assert(tile_values(compacted@) =~= earlier.push(line[row as int]));
            }
        }
        proof {
            assert(line.take(4) =~= line);
            lemma_tiles_are_cells(line);
            assert(Seq::<nat>::empty() + goal =~= goal);
            assert forall|j: int| 0 <= j < compacted.len() implies 0 < #[trigger] compacted@[j]
                && compacted@[j] <= MAX_MERGEABLE by {
                let t = tiles(line);
                assert(t[j] == tile_values(compacted@)[j]);
                let k = choose|k: int| 0 <= k < line.len() && line[k] == t[j];
                assert(line[k] <= MAX_MERGEABLE);
            }
        }
        let mut output: Vec<Tile> = Vec::new();
        loop
            invariant
                compacted.len() <= 4,
                output.len() + compacted.len() <= 4,
                forall|j: int|
                    0 <= j < compacted.len() ==> 0 < #[trigger] compacted@[j] && compacted@[j]
                        <= MAX_MERGEABLE,
                tile_values(output@) + merged(tile_values(compacted@).reverse()) == goal,
            ensures
                tile_values(output@) == goal,
                output.len() <= 4,
            decreases compacted.len(),
        {
            let ghost pending = tile_values(compacted@);
            let ghost done = tile_values(output@);
            match compacted.pop() {
                Some(first) => {
                    let ghost below = tile_values(compacted@);
                    proof {
                        assert(pending.reverse() =~= seq![first as nat] + below.reverse());
                    }
                    if compacted.len() > 0 && compacted[compacted.len() - 1] == first {
                        output.push(first * 2);
                        compacted.pop();
                        proof {
                            let left = tile_values(compacted@);
                            assert(below.reverse() =~= seq![first as nat] + left.reverse());
                            lemma_merged_pair(first as nat, left.reverse());
                            assert(tile_values(output@) =~= done.push(2 * first as nat));
                            assert(done.push(2 * first as nat) + merged(left.reverse()) =~= done
                                + (seq![2 * first as nat] + merged(left.reverse())));
                        }
                    } else {
                        output.push(first);
                        proof {
                            if below.len() > 0 {
                                assert(below.reverse()[0] == below[below.len() - 1]);
                            }
                            lemma_merged_single(first as nat, below.reverse());
                            assert(tile_values(output@) =~= done.push(first as nat));
                            assert(done.push(first as nat) + merged(below.reverse()) =~= done + (
                            seq![first as nat] + merged(below.reverse())));
                        }
                    }
                },
                None => {
                    proof {
                        assert(pending.reverse() =~= Seq::<nat>::empty());
                        assert(done + Seq::<nat>::empty() =~= done);
                    }
                    break ;
                },
            }
        }
        reverse(&mut output);
        let ghost turned = goal.reverse();
        proof {
            assert(tile_values(output@) =~= turned);
            assert(padded(turned, turned.len()) =~= turned);
        }
        while output.len() < 4
            invariant
                turned.len() <= output.len() <= 4,
                tile_values(output@) == padded(turned, output.len() as nat),
            decreases 4 - output.len(),
        {
            let ghost shorter = tile_values(output@);
            output.push(0);
            assert(tile_values(output@) =~= shorter.push(0));
            assert(shorter.push(0) =~= padded(turned, output.len() as nat));
        }
        for row in 0..4usize
            invariant
                col < 4,
                output.len() == 4,
                forall|r: int| 0 <= r < row ==> board.at(r, col as int) == output@[r],
                forall|r: int| row <= r < 4 ==> board.at(r, col as int) == before.at(r, col as int),
                forall|r: int, c: int|
                    0 <= r < 4 && 0 <= c < 4 && c != col ==> board.at(r, c) == before.at(r, c),
        {
            board.cells[row][col] = output[row];
        }
        proof {
            assert(board.col(col as int) =~= tile_values(output@));
            assert forall|k: int| 0 <= k < 4 && k != col implies #[trigger] board.col(k)
                == before.col(k) by {
                assert forall|r: int| 0 <= r < 4 implies board.col(k)[r] == before.col(k)[r] by {
                    assert(board.at(r, k) == before.at(r, k));
                }
                assert(board.col(k) =~= before.col(k));
            }
        }
    }
    proof {
        let goal = slid_up(old(board)@);
        if old(board).well_formed() {
            lemma_moves_keep_tiles(old(board)@);
        }
        assert forall|r: int| 0 <= r < 4 implies board@[r] == goal[r] by {
            assert forall|c: int| 0 <= c < 4 implies board@[r][c] == goal[r][c] by {
                assert(board.col(c)[r] == board@[r][c]);
            }
            assert(board@[r] =~= goal[r]);
        }
        assert(board@ =~= goal);
    }
}

} // verus!
