use game2048::board::{board_changed, Board};
use game2048::input::UserAction;
use game2048::moves::{move_down, move_left, move_right, move_up};
use game2048::play::{apply_action, NextStep};

const START: [[u32; 4]; 4] = [[2, 2, 0, 0], [0, 4, 0, 4], [8, 0, 0, 0], [0, 0, 16, 16]];

fn differing_cells(first: &Board, second: &Board) -> Vec<(usize, usize)> {
    let mut cells = Vec::new();
    for r in 0..4 {
        for c in 0..4 {
            if first.cells[r][c] != second.cells[r][c] {
                cells.push((r, c));
            }
        }
    }
    cells
}

#[test]
fn quit_leaves_the_board_alone_and_exits() {
    let mut board = Board { cells: START };
    assert_eq!(apply_action(&mut board, UserAction::Quit), NextStep::Exit);
    assert_eq!(board.cells, START);
}

#[test]
fn no_action_leaves_the_board_alone_and_polls_again() {
    let mut board = Board { cells: START };
    assert_eq!(apply_action(&mut board, UserAction::NoOp), NextStep::Poll);
    assert_eq!(board.cells, START);
}

#[test]
fn a_move_that_changes_the_board_spawns_one_tile() {
    let moves: [(UserAction, fn(&mut Board)); 4] = [
        (UserAction::MoveUp, |board: &mut Board| move_up(board)),
        (UserAction::MoveDown, |board: &mut Board| move_down(board)),
        (UserAction::MoveLeft, |board: &mut Board| move_left(board)),
        (UserAction::MoveRight, |board: &mut Board| move_right(board)),
    ];
    for (action, slide) in moves {
        for _ in 0..50 {
            let mut moved = Board { cells: START };
            slide(&mut moved);
            assert!(board_changed(&moved, &Board { cells: START }));

            let mut board = Board { cells: START };
            assert_eq!(apply_action(&mut board, action), NextStep::Render);
            let spawned = differing_cells(&moved, &board);
            assert_eq!(spawned.len(), 1);
            let (r, c) = spawned[0];
            assert_eq!(moved.cells[r][c], 0);
            assert!(board.cells[r][c] == 2 || board.cells[r][c] == 4);
        }
    }
}

#[test]
fn a_move_that_changes_nothing_spawns_nothing() {
    let stuck_left = [[2, 4, 2, 4], [4, 2, 0, 0], [8, 0, 0, 0], [0, 0, 0, 0]];
    for _ in 0..20 {
        let mut board = Board { cells: stuck_left };
        assert_eq!(apply_action(&mut board, UserAction::MoveLeft), NextStep::Render);
        assert_eq!(board.cells, stuck_left);
        assert_eq!(apply_action(&mut board, UserAction::MoveLeft), NextStep::Render);
        assert_eq!(board.cells, stuck_left);
    }
    let stuck_up = [[2, 4, 8, 0], [4, 2, 0, 0], [2, 0, 0, 0], [0, 0, 0, 0]];
    for _ in 0..20 {
        let mut board = Board { cells: stuck_up };
        assert_eq!(apply_action(&mut board, UserAction::MoveUp), NextStep::Render);
        assert_eq!(board.cells, stuck_up);
    }
}

#[test]
fn a_move_on_a_stuck_full_board_changes_nothing() {
    let full = [[2, 4, 2, 4], [4, 2, 4, 2], [2, 4, 2, 4], [4, 2, 4, 2]];
    for action in
        [UserAction::MoveUp, UserAction::MoveDown, UserAction::MoveLeft, UserAction::MoveRight]
    {
        let mut board = Board { cells: full };
        assert_eq!(apply_action(&mut board, action), NextStep::Render);
        assert_eq!(board.cells, full);
    }
}

#[test]
fn a_merge_on_a_full_board_makes_room_for_the_spawn() {
    let full = [[2, 2, 4, 8], [4, 8, 16, 32], [2, 4, 8, 16], [4, 8, 16, 32]];
    let mut board = Board { cells: full };
    assert_eq!(apply_action(&mut board, UserAction::MoveLeft), NextStep::Render);
    assert_eq!(&board.cells[0][..3], &[4, 4, 8]);
    assert!(board.cells[0][3] == 2 || board.cells[0][3] == 4);
    assert_eq!(&board.cells[1..], &full[1..]);
}
