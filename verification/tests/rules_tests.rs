//! Tests for legality, enumeration and capture resolution.

use othello::board::{count_pieces, create_board, Board, Player, Pos, Spot};
use othello::rules::{find_valid_moves, is_valid_move, place_piece, valid_move, valid_moves_to_vec};

fn black(last_move: bool) -> Spot {
    Spot { owner: Some(Player::Black), last_move }
}

fn white(last_move: bool) -> Spot {
    Spot { owner: Some(Player::White), last_move }
}

fn pos(col: usize, row: usize) -> Pos {
    Pos { col, row }
}

#[test]
fn initial_black_moves_are_the_four_diagonal_attacks() {
    let b = create_board();
    let moves = find_valid_moves(&b, Player::Black);
    assert_eq!(moves, vec![pos(2, 3), pos(3, 2), pos(4, 5), pos(5, 4)]);
}

#[test]
fn each_initial_black_move_flips_exactly_one_white_cell() {
    let b = create_board();
    for m in find_valid_moves(&b, Player::Black) {
        let after = place_piece(&b, m, Player::Black);
        assert_eq!(count_pieces(&after), (4, 1));
    }
}

#[test]
fn enumeration_agrees_with_the_legality_check() {
    let b = create_board();
    for player in [Player::Black, Player::White] {
        let moves = find_valid_moves(&b, player);
        for col in 0..8 {
            for row in 0..8 {
                let legal = is_valid_move(&b, pos(col, row), player);
                assert_eq!(legal, moves.contains(&pos(col, row)));
            }
        }
    }
}

#[test]
fn valid_move_matches_is_valid_move() {
    let b = create_board();
    for col in 0..8 {
        for row in 0..8 {
            assert_eq!(
                valid_move(&b, pos(col, row), Player::White),
                is_valid_move(&b, pos(col, row), Player::White)
            );
        }
    }
}

#[test]
fn occupied_cells_are_never_legal() {
    let b = create_board();
    assert!(!is_valid_move(&b, pos(3, 3), Player::Black));
    assert!(!is_valid_move(&b, pos(3, 4), Player::Black));
    assert!(!is_valid_move(&b, pos(4, 4), Player::White));
}

#[test]
fn a_run_reaching_an_empty_cell_or_the_edge_captures_nothing() {
    let mut b = Board::blank();
    b.set_spot(pos(0, 1), white(false));
    // Above the white piece the run leaves the board; below it ends on an
    // empty cell. Neither bounds the run, so neither side of it is legal.
    assert!(!is_valid_move(&b, pos(0, 0), Player::Black));
    assert!(!is_valid_move(&b, pos(0, 2), Player::Black));
}

#[test]
fn first_move_flips_the_centre_cell() {
    let b = create_board();
    let after = place_piece(&b, pos(2, 3), Player::Black);
    assert_eq!(after.get(pos(2, 3)), black(true));
    assert_eq!(after.get(pos(3, 3)), black(true));
    assert_eq!(after.get(pos(3, 4)), black(false));
    assert_eq!(after.get(pos(4, 3)), black(false));
    assert_eq!(after.get(pos(4, 4)), white(false));
}

#[test]
fn the_highlight_marks_exactly_the_changed_cells() {
    let b = create_board();
    let after = place_piece(&b, pos(2, 3), Player::Black);
    for col in 0..8 {
        for row in 0..8 {
            let expected = (col == 2 && row == 3) || (col == 3 && row == 3);
            assert_eq!(after.get(pos(col, row)).last_move, expected);
        }
    }
}

#[test]
fn place_piece_is_deterministic() {
    let b = create_board();
    let first = place_piece(&b, pos(4, 5), Player::Black);
    let second = place_piece(&b, pos(4, 5), Player::Black);
    assert_eq!(first, second);
}

#[test]
fn placing_adds_one_occupied_cell_and_flips_count_for_the_mover() {
    let b = create_board();
    let (black_before, white_before) = count_pieces(&b);
    assert_eq!(black_before + white_before, 4);
    let after = place_piece(&b, pos(2, 3), Player::Black);
    let (black_after, white_after) = count_pieces(&after);
    // One cell was placed and one flipped: the mover gains two pieces, the
    // opponent loses one, and exactly one more cell is occupied.
    assert_eq!(black_after, black_before + 2);
    assert_eq!(white_after, white_before - 1);
    assert_eq!(black_after + white_after, black_before + white_before + 1);
}

#[test]
fn a_move_can_capture_in_several_directions_at_once() {
    let mut b = Board::blank();
    b.set_spot(pos(3, 1), black(false));
    b.set_spot(pos(3, 2), white(false));
    b.set_spot(pos(1, 3), black(false));
    b.set_spot(pos(2, 3), white(false));
    assert!(is_valid_move(&b, pos(3, 3), Player::Black));
    let after = place_piece(&b, pos(3, 3), Player::Black);
    assert_eq!(after.get(pos(3, 2)), black(true));
    assert_eq!(after.get(pos(2, 3)), black(true));
    assert_eq!(count_pieces(&after), (5, 0));
}

#[test]
fn a_gap_in_a_run_blocks_the_capture() {
    let mut b = Board::blank();
    // Legal through the column: one white piece bounded by black.
    b.set_spot(pos(0, 1), white(false));
    b.set_spot(pos(0, 2), black(false));
    // Along the row the white piece is followed by a gap before black:
    // nothing there may be converted.
    b.set_spot(pos(1, 0), white(false));
    b.set_spot(pos(3, 0), black(false));
    assert!(is_valid_move(&b, pos(0, 0), Player::Black));
    let after = place_piece(&b, pos(0, 0), Player::Black);
    assert_eq!(after.get(pos(0, 1)), black(true));
    assert_eq!(after.get(pos(1, 0)), white(false));
    assert_eq!(after.get(pos(2, 0)), Spot { owner: None, last_move: false });
    assert_eq!(count_pieces(&after), (4, 1));
}

#[test]
fn a_long_run_is_captured_whole() {
    let mut b = Board::blank();
    b.set_spot(pos(0, 0), black(false));
    for row in 1..7 {
        b.set_spot(pos(0, row), white(false));
    }
    assert!(is_valid_move(&b, pos(0, 7), Player::Black));
    let after = place_piece(&b, pos(0, 7), Player::Black);
    assert_eq!(count_pieces(&after), (8, 0));
}

#[test]
fn valid_moves_to_vec_lists_marked_cells_in_scan_order() {
    let mut mask = vec![false; 64];
    mask[0] = true; // (0, 0)
    mask[11] = true; // (1, 3)
    mask[63] = true; // (7, 7)
    let list = valid_moves_to_vec(&mask);
    assert_eq!(list, vec![pos(0, 0), pos(1, 3), pos(7, 7)]);
}

#[test]
fn valid_moves_to_vec_of_a_blank_mask_is_empty() {
    let mask = vec![false; 64];
    assert_eq!(valid_moves_to_vec(&mask), Vec::<Pos>::new());
}
