//! Tests for turn progression, scoring, and the AI selectors.

use othello::board::{count_pieces, create_board, Board, Player, Pos, Spot};
use othello::game::{game_result, turn, GameResult, TurnOutcome};
use othello::rules::{find_valid_moves, is_valid_move, place_piece};
use othello::select::{ai_input, ai_input_2};

fn black() -> Spot {
    Spot { owner: Some(Player::Black), last_move: false }
}

fn white() -> Spot {
    Spot { owner: Some(Player::White), last_move: false }
}

fn pos(col: usize, row: usize) -> Pos {
    Pos { col, row }
}

#[test]
fn the_first_turn_offers_blacks_four_moves() {
    let b = create_board();
    let out = turn(&b, Player::Black);
    assert_eq!(
        out,
        TurnOutcome::Play {
            player: Player::Black,
            skipped: false,
            moves: vec![pos(2, 3), pos(3, 2), pos(4, 5), pos(5, 4)],
        }
    );
}

#[test]
fn a_player_without_moves_is_skipped() {
    let mut b = Board::blank();
    b.set_spot(pos(0, 0), black());
    b.set_spot(pos(1, 0), white());
    // White cannot move anywhere, Black can capture at (2, 0): White's turn
    // must pass to Black without a placement.
    assert!(find_valid_moves(&b, Player::White).is_empty());
    let out = turn(&b, Player::White);
    assert_eq!(
        out,
        TurnOutcome::Play { player: Player::Black, skipped: true, moves: vec![pos(2, 0)] }
    );
}

#[test]
fn a_board_without_moves_for_either_side_ends_the_game() {
    let mut b = Board::blank();
    b.set_spot(pos(0, 0), black());
    b.set_spot(pos(7, 7), white());
    assert_eq!(turn(&b, Player::Black), TurnOutcome::GameOver);
    assert_eq!(turn(&b, Player::White), TurnOutcome::GameOver);
    // One piece each: the game ends in a tie.
    assert_eq!(game_result(&b), GameResult::Tie);
}

#[test]
fn the_side_with_more_pieces_wins() {
    let mut b = Board::blank();
    b.set_spot(pos(0, 0), black());
    b.set_spot(pos(2, 0), black());
    b.set_spot(pos(7, 7), white());
    assert_eq!(game_result(&b), GameResult::BlackWins);
    b.set_spot(pos(5, 5), white());
    b.set_spot(pos(7, 5), white());
    assert_eq!(game_result(&b), GameResult::WhiteWins);
}

#[test]
fn the_random_selector_stays_inside_the_offered_moves() {
    let b = create_board();
    let moves = find_valid_moves(&b, Player::White);
    assert!(!moves.is_empty());
    for _ in 0..50 {
        let m = ai_input(&moves);
        assert!(moves.contains(&m));
    }
}

#[test]
fn the_greedy_selector_picks_only_maximal_moves() {
    let mut b = Board::blank();
    // One column captures a single piece, two columns capture two each:
    // the greedy selector must choose between the two maximal columns and
    // never the first.
    b.set_spot(pos(1, 0), white());
    b.set_spot(pos(2, 0), black());
    b.set_spot(pos(1, 2), white());
    b.set_spot(pos(2, 2), white());
    b.set_spot(pos(3, 2), black());
    b.set_spot(pos(1, 4), white());
    b.set_spot(pos(2, 4), white());
    b.set_spot(pos(3, 4), black());
    let moves = find_valid_moves(&b, Player::Black);
    assert_eq!(moves, vec![pos(0, 0), pos(0, 2), pos(0, 4)]);
    for _ in 0..50 {
        let m = ai_input_2(&b, Player::Black, &moves);
        assert!(m == pos(0, 2) || m == pos(0, 4));
    }
}

#[test]
fn a_full_random_game_terminates_and_keeps_the_counts() {
    let mut board = create_board();
    let mut current = Player::Black;
    let mut placements: u32 = 0;
    loop {
        match turn(&board, current) {
            TurnOutcome::GameOver => break,
            TurnOutcome::Play { player, skipped: _, moves } => {
                assert!(!moves.is_empty());
                // The offered list agrees with the legality check on every cell.
                for col in 0..8 {
                    for row in 0..8 {
                        let p = Pos { col, row };
                        assert_eq!(is_valid_move(&board, p, player), moves.contains(&p));
                    }
                }
                let (black_before, white_before) = count_pieces(&board);
                let chosen = ai_input(&moves);
                assert!(moves.contains(&chosen));
                board = place_piece(&board, chosen, player);
                let (black_after, white_after) = count_pieces(&board);
                // Each placement occupies exactly one more cell and gains the
                // mover at least the placed piece.
                assert_eq!(black_after + white_after, black_before + white_before + 1);
                match player {
                    Player::Black => assert!(black_after >= black_before + 1),
                    Player::White => assert!(white_after >= white_before + 1),
                }
                placements += 1;
                assert!(placements <= 60, "more placements than empty cells");
                current = player.opposite();
            }
        }
    }
    let (black_total, white_total) = count_pieces(&board);
    let expected = if black_total > white_total {
        GameResult::BlackWins
    } else if white_total > black_total {
        GameResult::WhiteWins
    } else {
        GameResult::Tie
    };
    assert_eq!(game_result(&board), expected);
}

#[test]
fn the_greedy_selector_takes_a_uniquely_best_move() {
    let mut b = Board::blank();
    b.set_spot(pos(1, 0), white());
    b.set_spot(pos(2, 0), black());
    b.set_spot(pos(1, 2), white());
    b.set_spot(pos(2, 2), white());
    b.set_spot(pos(3, 2), black());
    let moves = find_valid_moves(&b, Player::Black);
    assert_eq!(moves, vec![pos(0, 0), pos(0, 2)]);
    for _ in 0..20 {
        assert_eq!(ai_input_2(&b, Player::Black, &moves), pos(0, 2));
    }
}
