//! The two AI move selectors: uniform-random and greedy one-ply.

use vstd::prelude::*;

use rand::seq::IndexedRandom;

use crate::board::{Board, Player, Pos, Spot, count_in, count_pieces};
use crate::rules::{legal_spec, place_piece, place_result};

verus! {

/// Relies on rand's `IndexedRandom::choose` on a slice: it returns `None`
/// exactly when the slice is empty, and otherwise a uniformly sampled
/// element of the slice.
#[verifier::external_body]
fn choose_random(moves: &Vec<Pos>) -> (r: Option<Pos>)
    ensures
        r is None <==> moves@.len() == 0,
        r matches Some(q) ==> moves@.contains(q),
{
    moves.as_slice().choose(&mut rand::rng()).copied()
}

/// The uniform-random selector: one of the offered legal moves, chosen at
/// random. The offered list must not be empty.
pub fn ai_input(valid_moves: &Vec<Pos>) -> (r: Pos)
    requires
        valid_moves@.len() > 0,
    ensures
        valid_moves@.contains(r),
{
    match choose_random(valid_moves) {
        Some(q) => q,
        None => {
            proof {
                assert(false);
            }
            valid_moves[0]
        },
    }
}

/// The score the greedy selector maximises: the mover's piece count after
/// playing `m` on `g`.
pub open spec fn move_score(g: Seq<Spot>, m: Pos, p: Player) -> int {
    count_in(place_result(g, m.col as int, m.row as int, p), p)
}

/// The greedy one-ply selector: applies each offered legal move to a scratch
/// board and returns, chosen at random among ties, one of the moves that
/// maximise the mover's piece count.
pub fn ai_input_2(board: &Board, current_turn: Player, valid_moves: &Vec<Pos>) -> (r: Pos)
    requires
        board.wf(),
        valid_moves@.len() > 0,
        forall|k: int|
            0 <= k < valid_moves@.len() ==> (#[trigger] valid_moves@[k]).valid() && legal_spec(
                board.grid(),
                valid_moves@[k].col as int,
                valid_moves@[k].row as int,
                current_turn,
            ),
    ensures
        valid_moves@.contains(r),
        forall|k: int|
            0 <= k < valid_moves@.len() ==> move_score(
                board.grid(),
                #[trigger] valid_moves@[k],
                current_turn,
            ) <= move_score(board.grid(), r, current_turn),
{
    let ghost g = board.grid();
    let mut best_moves: Vec<Pos> = Vec::new();
    let mut best_score: u32 = 0;
    let mut k: usize = 0;
    while k < valid_moves.len()
        invariant
            board.wf(),
            g == board.grid(),
            k <= valid_moves@.len(),
            forall|j: int|
                0 <= j < valid_moves@.len() ==> (#[trigger] valid_moves@[j]).valid() && legal_spec(
                    g,
                    valid_moves@[j].col as int,
                    valid_moves@[j].row as int,
                    current_turn,
                ),
            forall|j: int|
                0 <= j < k ==> move_score(g, #[trigger] valid_moves@[j], current_turn)
                    <= best_score,
            forall|j: int|
                0 <= j < best_moves@.len() ==> valid_moves@.contains(#[trigger] best_moves@[j])
                    && move_score(g, best_moves@[j], current_turn) == best_score,
            k > 0 ==> best_moves@.len() > 0,
            k == 0 ==> best_score == 0,
        decreases valid_moves@.len() - k,
    {
        let m = valid_moves[k];
        let board_after_move = place_piece(board, m, current_turn);
        let (black_total, white_total) = count_pieces(&board_after_move);
        let sc = match current_turn {
            Player::Black => black_total,
            Player::White => white_total,
        };
        proof {
            assert(sc as int == move_score(g, m, current_turn));
            assert(valid_moves@.contains(m));
        }
        if sc > best_score {
            let mut replacement: Vec<Pos> = Vec::new();
            replacement.push(m);
            best_moves = replacement;
            best_score = sc;
        } else if sc == best_score {
            best_moves.push(m);
        }
        k += 1;
    }
    match choose_random(&best_moves) {
        Some(q) => {
            proof {
                let j = choose|j: int| 0 <= j < best_moves@.len() && best_moves@[j] == q;
            }
            q
        },
        None => {
            proof {
                assert(false);
            }
            best_moves[0]
        },
    }
}

} // verus!
