use game2048::board::{board_changed, create_empty_board, is_mergeable, Board, MAX_MERGEABLE};
use game2048::moves::{move_down, move_left, move_right, move_up};

fn board_with_row(row: [u32; 4]) -> Board {
    let mut board = create_empty_board();
    board.cells[1] = row;
    board
}

fn board_with_column(column: [u32; 4]) -> Board {
    let mut board = create_empty_board();
    for r in 0..4 {
        board.cells[r][2] = column[r];
    }
    board
}

fn column_of(board: &Board, c: usize) -> [u32; 4] {
    [board.cells[0][c], board.cells[1][c], board.cells[2][c], board.cells[3][c]]
}

fn left(row: [u32; 4]) -> [u32; 4] {
    let mut board = board_with_row(row);
    move_left(&mut board);
    assert_eq!(board.cells[0], [0, 0, 0, 0]);
    assert_eq!(board.cells[2], [0, 0, 0, 0]);
    assert_eq!(board.cells[3], [0, 0, 0, 0]);
    board.cells[1]
}

fn right(row: [u32; 4]) -> [u32; 4] {
    let mut board = board_with_row(row);
    move_right(&mut board);
    assert_eq!(board.cells[0], [0, 0, 0, 0]);
    assert_eq!(board.cells[2], [0, 0, 0, 0]);
    assert_eq!(board.cells[3], [0, 0, 0, 0]);
    board.cells[1]
}

fn up(column: [u32; 4]) -> [u32; 4] {
    let mut board = board_with_column(column);
    move_up(&mut board);
    for c in [0, 1, 3] {
        assert_eq!(column_of(&board, c), [0, 0, 0, 0]);
    }
    column_of(&board, 2)
}

fn down(column: [u32; 4]) -> [u32; 4] {
    let mut board = board_with_column(column);
    move_down(&mut board);
    for c in [0, 1, 3] {
        assert_eq!(column_of(&board, c), [0, 0, 0, 0]);
    }
    column_of(&board, 2)
}

#[test]
fn move_left_merges_the_pair_nearest_the_left_edge() {
    assert_eq!(left([2, 2, 2, 0]), [4, 2, 0, 0]);
}

#[test]
fn move_left_closes_gaps_before_merging() {
    assert_eq!(left([0, 2, 0, 2]), [4, 0, 0, 0]);
}

#[test]
fn move_left_leaves_a_row_without_equal_neighbours() {
    assert_eq!(left([2, 4, 2, 4]), [2, 4, 2, 4]);
}

#[test]
fn move_left_merges_two_pairs_without_cascading() {
    assert_eq!(left([2, 2, 2, 2]), [4, 4, 0, 0]);
    assert_eq!(left([4, 2, 2, 0]), [4, 4, 0, 0]);
    assert_eq!(left([2, 2, 4, 0]), [4, 4, 0, 0]);
    assert_eq!(left([2, 2, 4, 4]), [4, 8, 0, 0]);
}

#[test]
fn move_left_slides_single_tiles() {
    assert_eq!(left([0, 0, 0, 0]), [0, 0, 0, 0]);
    assert_eq!(left([0, 0, 0, 8]), [8, 0, 0, 0]);
    assert_eq!(left([0, 4, 0, 8]), [4, 8, 0, 0]);
    assert_eq!(left([2, 0, 0, 2]), [4, 0, 0, 0]);
}

#[test]
fn move_right_merges_the_pair_nearest_the_right_edge() {
    assert_eq!(right([0, 2, 2, 2]), [0, 0, 2, 4]);
}

#[test]
fn move_right_mirrors_move_left() {
    assert_eq!(right([2, 2, 2, 0]), [0, 0, 2, 4]);
    assert_eq!(right([2, 0, 2, 0]), [0, 0, 0, 4]);
    assert_eq!(right([4, 2, 4, 2]), [4, 2, 4, 2]);
    assert_eq!(right([2, 2, 2, 2]), [0, 0, 4, 4]);
    assert_eq!(right([0, 2, 2, 4]), [0, 0, 4, 4]);
    assert_eq!(right([4, 4, 2, 2]), [0, 0, 8, 4]);
    assert_eq!(right([8, 0, 0, 0]), [0, 0, 0, 8]);
    assert_eq!(right([0, 0, 0, 0]), [0, 0, 0, 0]);
}

#[test]
fn move_down_merges_the_pair_nearest_the_bottom_edge() {
    assert_eq!(down([2, 2, 2, 0]), [0, 0, 2, 4]);
}

#[test]
fn move_down_follows_the_edge_leading_rule() {
    assert_eq!(down([0, 2, 2, 2]), [0, 0, 2, 4]);
    assert_eq!(down([2, 2, 2, 2]), [0, 0, 4, 4]);
    assert_eq!(down([4, 2, 2, 2]), [0, 4, 2, 4]);
    assert_eq!(down([2, 4, 2, 4]), [2, 4, 2, 4]);
    assert_eq!(down([2, 0, 0, 2]), [0, 0, 0, 4]);
    assert_eq!(down([4, 4, 2, 2]), [0, 0, 8, 4]);
    assert_eq!(down([8, 0, 0, 0]), [0, 0, 0, 8]);
    assert_eq!(down([0, 0, 0, 0]), [0, 0, 0, 0]);
}

#[test]
fn move_up_merges_the_pair_nearest_the_bottom_first() {
    assert_eq!(up([2, 2, 2, 0]), [2, 4, 0, 0]);
}

#[test]
fn move_up_groups_runs_from_the_bottom() {
    assert_eq!(up([0, 2, 2, 2]), [2, 4, 0, 0]);
    assert_eq!(up([4, 2, 2, 2]), [4, 2, 4, 0]);
    assert_eq!(up([2, 2, 2, 4]), [2, 4, 4, 0]);
}

#[test]
fn move_up_agrees_with_the_other_moves_on_even_runs() {
    assert_eq!(up([2, 2, 2, 2]), [4, 4, 0, 0]);
    assert_eq!(up([0, 2, 0, 2]), [4, 0, 0, 0]);
    assert_eq!(up([2, 4, 2, 4]), [2, 4, 2, 4]);
    assert_eq!(up([2, 2, 4, 4]), [4, 8, 0, 0]);
    assert_eq!(up([0, 0, 0, 8]), [8, 0, 0, 0]);
    assert_eq!(up([0, 0, 0, 0]), [0, 0, 0, 0]);
}

#[test]
fn moves_treat_every_line_on_its_own() {
    let start = Board { cells: [[2, 2, 4, 4], [0, 2, 0, 2], [8, 8, 8, 0], [2, 4, 8, 16]] };

    let mut board = start;
    move_left(&mut board);
    assert_eq!(board.cells, [[4, 8, 0, 0], [4, 0, 0, 0], [16, 8, 0, 0], [2, 4, 8, 16]]);

    let mut board = start;
    move_right(&mut board);
    assert_eq!(board.cells, [[0, 0, 4, 8], [0, 0, 0, 4], [0, 0, 8, 16], [2, 4, 8, 16]]);

    let mut board = start;
    move_down(&mut board);
    assert_eq!(board.cells, [[0, 0, 0, 0], [2, 4, 0, 4], [8, 8, 4, 2], [2, 4, 16, 16]]);

    let mut board = start;
    move_up(&mut board);
    assert_eq!(board.cells, [[2, 4, 4, 4], [8, 8, 16, 2], [2, 4, 0, 16], [0, 0, 0, 0]]);
}

#[test]
fn moves_double_the_largest_tile_that_can_merge() {
    assert_eq!(left([MAX_MERGEABLE, MAX_MERGEABLE, 0, 0]), [0xffff_fffe, 0, 0, 0]);
    assert_eq!(right([0, 0x4000_0000, 0x4000_0000, 0]), [0, 0, 0, 0x8000_0000]);
    assert_eq!(up([0x4000_0000, 0, 0, 0x4000_0000]), [0x8000_0000, 0, 0, 0]);
    assert_eq!(down([MAX_MERGEABLE, MAX_MERGEABLE, 1, 1]), [0, 0, 0xffff_fffe, 2]);
}

#[test]
fn moves_merge_any_equal_values() {
    assert_eq!(left([3, 3, 5, 5]), [6, 10, 0, 0]);
    assert_eq!(right([1, 1, 1, 0]), [0, 0, 1, 2]);
}

#[test]
fn is_mergeable_tells_when_a_move_may_be_made() {
    let mut board = create_empty_board();
    assert!(is_mergeable(&board));
    board.cells[3][3] = MAX_MERGEABLE;
    assert!(is_mergeable(&board));
    board.cells[2][1] = MAX_MERGEABLE + 1;
    assert!(!is_mergeable(&board));
    board.cells[2][1] = u32::MAX;
    assert!(!is_mergeable(&board));
}

#[test]
fn create_empty_board_is_all_zero() {
    let board = create_empty_board();
    assert_eq!(board.cells, [[0; 4]; 4]);
}

#[test]
fn board_changed_is_true_exactly_when_a_cell_differs() {
    let first = Board { cells: [[2, 0, 0, 0], [0, 4, 0, 0], [0, 0, 8, 0], [0, 0, 0, 16]] };
    let same = Board { cells: [[2, 0, 0, 0], [0, 4, 0, 0], [0, 0, 8, 0], [0, 0, 0, 16]] };
    assert!(!board_changed(&first, &same));
    for r in 0..4 {
        for c in 0..4 {
            let mut other = first;
            other.cells[r][c] += 2;
            assert!(board_changed(&other, &first));
            assert!(board_changed(&first, &other));
        }
    }
}

#[test]
fn a_move_that_cannot_shift_or_merge_changes_nothing() {
    let start = Board { cells: [[2, 4, 2, 4], [4, 2, 0, 0], [8, 0, 0, 0], [0, 0, 0, 0]] };
    let mut board = start;
    move_left(&mut board);
    assert_eq!(board.cells, start.cells);
    assert!(!board_changed(&board, &start));
    move_left(&mut board);
    assert!(!board_changed(&board, &start));
}
