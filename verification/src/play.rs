//! One turn of the game: what an action does to the board, and what the
//! caller does next.

use vstd::prelude::*;
use crate::board::{board_changed, Board};
use crate::input::UserAction;
use crate::moves::{
    move_down, move_left, move_right, move_up, slid_down, slid_left, slid_right, slid_up,
};
use crate::spawn::{add_random_tile, spawned};

verus! {

/// What the caller of `apply_action` does next.
#[derive(Clone, Copy, Debug, PartialEq, Eq)]
pub enum NextStep {
    /// Leave the game.
    Exit,
    /// Wait for the next input; there is nothing new to show.
    Poll,
    /// Show the board, then go on.
    Render,
}

/// The grid after the move that `action` asks for; the grid itself where it
/// asks for none.
pub open spec fn moved(grid: Seq<Seq<nat>>, action: UserAction) -> Seq<Seq<nat>> {
    match action {
        UserAction::MoveUp => slid_up(grid),
        UserAction::MoveDown => slid_down(grid),
        UserAction::MoveLeft => slid_left(grid),
        UserAction::MoveRight => slid_right(grid),
        UserAction::Quit => grid,
        UserAction::NoOp => grid,
    }
}

/// Carries out one action. Quitting and doing nothing leave the board alone.
/// A move slides the tiles; where that changed the board, one new tile is
/// spawned on it, and where it did not, none is.
pub fn apply_action(board: &mut Board, action: UserAction) -> (next: NextStep)
    requires
        old(board).mergeable(),
    ensures
        action is Quit ==> next is Exit && final(board)@ == old(board)@,
        action is NoOp ==> next is Poll && final(board)@ == old(board)@,
        !(action is Quit) && !(action is NoOp) ==> next is Render,
        !(action is Quit) && !(action is NoOp) && moved(old(board)@, action) == old(board)@
            ==> final(board)@ == old(board)@,
        !(action is Quit) && !(action is NoOp) && moved(old(board)@, action) != old(board)@
            ==> spawned(moved(old(board)@, action), final(board)@),
        old(board).well_formed() ==> final(board).well_formed(),
{
    let old_board: Board = *board;
    match action {
        UserAction::MoveUp => move_up(board),
        UserAction::MoveDown => move_down(board),
        UserAction::MoveLeft => move_left(board),
        UserAction::MoveRight => move_right(board),
        UserAction::Quit => {
            return NextStep::Exit;
        },
        UserAction::NoOp => {
            return NextStep::Poll;
        },
    }
    if board_changed(board, &old_board) {
        add_random_tile(board);
    }
    NextStep::Render
}

} // verus!
