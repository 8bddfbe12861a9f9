//! Turn progression and final scoring.
//!
//! A turn starts by asking which side can move: if the active player has a
//! legal move the turn is theirs; if only the opponent has one the turn
//! passes (a forced pass); if neither has one the game is over and is scored
//! by piece count.

use vstd::prelude::*;

use crate::board::{Board, Player, Pos, Spot, count_in, count_pieces, flip_player};
use crate::rules::{find_valid_moves, has_legal_move, legal_move_list};

verus! {

/// What the turn controller finds at the start of a turn.
#[derive(PartialEq, Eq, Debug)]
pub enum TurnOutcome {
    /// Someone can move: the active player (after a forced pass, the original
    /// player's opponent), whether such a pass happened, and the active
    /// player's legal moves.
    Play { player: Player, skipped: bool, moves: Vec<Pos> },
    /// Neither side has a legal move: the game is over.
    GameOver,
}

/// Resolves the start of a turn for `current_turn` on `board`: reports a
/// forced pass when only the opponent can move, the end of the game when
/// neither side can, and otherwise offers the active player's legal moves.
pub fn turn(board: &Board, current_turn: Player) -> (out: TurnOutcome)
    requires
        board.wf(),
    ensures
        match out {
            TurnOutcome::Play { player, skipped, moves } => {
                &&& skipped == !has_legal_move(board.grid(), current_turn)
                &&& player == (if skipped {
                    flip_player(current_turn)
                } else {
                    current_turn
                })
                &&& legal_move_list(board.grid(), player, moves@)
                &&& moves@.len() > 0
            },
            TurnOutcome::GameOver => !has_legal_move(board.grid(), current_turn)
                && !has_legal_move(board.grid(), flip_player(current_turn)),
        },
{
    let moves_cur = find_valid_moves(board, current_turn);
    if moves_cur.len() > 0 {
        TurnOutcome::Play { player: current_turn, skipped: false, moves: moves_cur }
    } else {
        let opp = current_turn.opposite();
        let moves_opp = find_valid_moves(board, opp);
        if moves_opp.len() > 0 {
            TurnOutcome::Play { player: opp, skipped: true, moves: moves_opp }
        } else {
            TurnOutcome::GameOver
        }
    }
}

/// The outcome of a finished game.
#[derive(Copy, Clone, PartialEq, Eq, Structural, Debug)]
pub enum GameResult {
    BlackWins,
    WhiteWins,
    Tie,
}

/// The result the piece counts of `g` decide: the side with more pieces
/// wins, equal counts tie.
pub open spec fn result_of(g: Seq<Spot>) -> GameResult {
    if count_in(g, Player::Black) > count_in(g, Player::White) {
        GameResult::BlackWins
    } else if count_in(g, Player::White) > count_in(g, Player::Black) {
        GameResult::WhiteWins
    } else {
        GameResult::Tie
    }
}

/// Scores a board by piece count.
pub fn game_result(board: &Board) -> (res: GameResult)
    requires
        board.wf(),
    ensures
        res == result_of(board.grid()),
{
    let (black_total, white_total) = count_pieces(board);
    if black_total > white_total {
        GameResult::BlackWins
    } else if white_total > black_total {
        GameResult::WhiteWins
    } else {
        GameResult::Tie
    }
}

} // verus!
