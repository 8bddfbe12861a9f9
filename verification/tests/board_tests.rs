//! Tests for the board: cells, the starting layout, and piece counting.

use othello::board::{count_pieces, create_board, Board, Player, Pos, Spot};

fn black(last_move: bool) -> Spot {
    Spot { owner: Some(Player::Black), last_move }
}

fn white(last_move: bool) -> Spot {
    Spot { owner: Some(Player::White), last_move }
}

fn empty() -> Spot {
    Spot { owner: None, last_move: false }
}

#[test]
fn opposite_swaps_sides() {
    assert_eq!(Player::Black.opposite(), Player::White);
    assert_eq!(Player::White.opposite(), Player::Black);
}

#[test]
fn opposite_is_an_involution() {
    assert_eq!(Player::Black.opposite().opposite(), Player::Black);
    assert_eq!(Player::White.opposite().opposite(), Player::White);
}

#[test]
fn get_flip_swaps_owner_and_keeps_highlight() {
    assert_eq!(black(true).get_flip(), white(true));
    assert_eq!(white(false).get_flip(), black(false));
    assert_eq!(empty().get_flip(), empty());
}

#[test]
fn get_true_highlights_occupied_cells_only() {
    assert_eq!(black(false).get_true(), black(true));
    assert_eq!(white(true).get_true(), white(true));
    assert_eq!(empty().get_true(), empty());
}

#[test]
fn get_false_clears_the_highlight() {
    assert_eq!(black(true).get_false(), black(false));
    assert_eq!(white(true).get_false(), white(false));
    assert_eq!(empty().get_false(), empty());
}

#[test]
fn spot_to_string_draws_the_pieces() {
    assert_eq!(black(false).to_string(), "X");
    assert_eq!(white(true).to_string(), "O");
    assert_eq!(empty().to_string(), " ");
}

#[test]
fn starting_board_has_the_four_centre_pieces() {
    let b = create_board();
    assert_eq!(b.get(Pos { col: 3, row: 3 }), white(false));
    assert_eq!(b.get(Pos { col: 3, row: 4 }), black(false));
    assert_eq!(b.get(Pos { col: 4, row: 3 }), black(false));
    assert_eq!(b.get(Pos { col: 4, row: 4 }), white(false));
    for col in 0..8 {
        for row in 0..8 {
            if (col == 3 || col == 4) && (row == 3 || row == 4) {
                continue;
            }
            assert_eq!(b.get(Pos { col, row }), empty());
        }
    }
}

#[test]
fn starting_board_counts_two_each() {
    let b = create_board();
    assert_eq!(count_pieces(&b), (2, 2));
}

#[test]
fn blank_board_counts_zero() {
    let b = Board::blank();
    assert_eq!(count_pieces(&b), (0, 0));
}

#[test]
fn count_pieces_sees_every_cell() {
    let mut b = Board::blank();
    b.set_spot(Pos { col: 0, row: 0 }, black(false));
    b.set_spot(Pos { col: 7, row: 7 }, black(true));
    b.set_spot(Pos { col: 2, row: 5 }, white(false));
    assert_eq!(count_pieces(&b), (2, 1));
}

#[test]
fn set_spot_replaces_a_cell() {
    let mut b = Board::blank();
    b.set_spot(Pos { col: 5, row: 1 }, white(true));
    assert_eq!(b.get(Pos { col: 5, row: 1 }), white(true));
    assert_eq!(b.get(Pos { col: 5, row: 2 }), empty());
    assert_eq!(b.get(Pos { col: 1, row: 5 }), empty());
}
