use game2048::board::{create_empty_board, Board};
use game2048::status::{
    contains_equal_neighbours, contains_tile, game_status, is_game_over, GameStatus,
    WINNING_TILE,
};

const STUCK: [[u32; 4]; 4] = [[2, 4, 2, 4], [4, 2, 4, 2], [2, 4, 2, 4], [4, 2, 4, 2]];

#[test]
fn winning_tile_is_2048() {
    assert_eq!(WINNING_TILE, 2048);
}

#[test]
fn a_2048_tile_ends_the_game_with_a_win() {
    let mut board = create_empty_board();
    board.cells[2][1] = 2048;
    assert!(is_game_over(&board));
    assert_eq!(game_status(&board), GameStatus::Won);
}

#[test]
fn a_2048_tile_wins_whatever_else_is_on_the_board() {
    let board = Board { cells: [[2, 2, 0, 0], [4, 4, 0, 0], [0, 0, 2048, 0], [0, 0, 0, 0]] };
    assert!(is_game_over(&board));
    assert_eq!(game_status(&board), GameStatus::Won);

    let mut full = Board { cells: STUCK };
    full.cells[3][3] = 2048;
    assert!(is_game_over(&full));
    assert_eq!(game_status(&full), GameStatus::Won);

    let mut with_pair = Board { cells: STUCK };
    with_pair.cells[0][0] = 2048;
    with_pair.cells[0][1] = 2048;
    assert!(is_game_over(&with_pair));
    assert_eq!(game_status(&with_pair), GameStatus::Won);
}

#[test]
fn every_cell_is_looked_at_for_the_winning_tile() {
    for r in 0..4 {
        for c in 0..4 {
            let mut board = create_empty_board();
            board.cells[r][c] = 2048;
            assert_eq!(game_status(&board), GameStatus::Won);
            assert!(contains_tile(&board, 2048));
            assert!(!contains_tile(&board, 1024));
        }
    }
}

#[test]
fn a_full_board_without_equal_neighbours_is_lost() {
    let board = Board { cells: STUCK };
    assert!(is_game_over(&board));
    assert_eq!(game_status(&board), GameStatus::Lost);
}

#[test]
fn a_full_board_with_a_horizontal_pair_goes_on() {
    let mut board = Board { cells: STUCK };
    board.cells[1][2] = 8;
    board.cells[1][3] = 8;
    assert!(!is_game_over(&board));
    assert_eq!(game_status(&board), GameStatus::InProgress);
}

#[test]
fn a_full_board_with_a_vertical_pair_goes_on() {
    let mut board = Board { cells: STUCK };
    board.cells[2][0] = 16;
    board.cells[3][0] = 16;
    assert!(!is_game_over(&board));
    assert_eq!(game_status(&board), GameStatus::InProgress);
}

#[test]
fn pairs_at_the_last_row_and_column_count() {
    let mut board = Board { cells: STUCK };
    board.cells[3][2] = 32;
    board.cells[3][3] = 32;
    assert!(!is_game_over(&board));

    let mut board = Board { cells: STUCK };
    board.cells[2][3] = 64;
    board.cells[3][3] = 64;
    assert!(!is_game_over(&board));
}

#[test]
fn a_board_with_an_empty_cell_goes_on() {
    let board = create_empty_board();
    assert!(!is_game_over(&board));
    assert_eq!(game_status(&board), GameStatus::InProgress);

    for r in 0..4 {
        for c in 0..4 {
            let mut board = Board { cells: STUCK };
            board.cells[r][c] = 0;
            assert!(!is_game_over(&board));
            assert_eq!(game_status(&board), GameStatus::InProgress);
        }
    }
}

#[test]
fn tiles_across_a_row_end_are_no_neighbours() {
    let board = Board { cells: [[2, 4, 8, 16], [16, 32, 64, 128], [128, 256, 512, 1024], [1024, 2, 4, 8]] };
    assert!(!contains_equal_neighbours(&board));
    assert!(is_game_over(&board));
    assert_eq!(game_status(&board), GameStatus::Lost);
}

#[test]
fn contains_equal_neighbours_finds_pairs_in_rows_and_columns() {
    let mut board = Board { cells: STUCK };
    assert!(!contains_equal_neighbours(&board));
    board.cells[0][1] = 2;
    assert!(contains_equal_neighbours(&board));
    let empty = create_empty_board();
    assert!(contains_equal_neighbours(&empty));
}
