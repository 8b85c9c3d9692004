use go_engine::game::{
    check_for_self_capture, place_stone, Board, PlayerModel, BLACK, BLACK_TERR, EMPTY, WHITE,
    WHITE_TERR,
};
use std::collections::HashMap;

fn colors(board: &Board) -> Vec<Vec<u8>> {
    board
        .board_state
        .iter()
        .map(|row| row.iter().map(|cell| cell.player_color).collect())
        .collect()
}

fn labels(board: &Board) -> Vec<Vec<u128>> {
    board
        .board_state
        .iter()
        .map(|row| row.iter().map(|cell| cell.chain_id).collect())
        .collect()
}

fn play_white(b: &mut Board, w: &mut PlayerModel, k: &mut PlayerModel, r: usize, c: usize) -> bool {
    if !b.is_white_turn {
        b.toggle_turn();
    }
    place_stone(b, w, k, r, c)
}

fn play_black(b: &mut Board, w: &mut PlayerModel, k: &mut PlayerModel, r: usize, c: usize) -> bool {
    if b.is_white_turn {
        b.toggle_turn();
    }
    place_stone(b, k, w, r, c)
}

#[test]
fn chain_grows_along_the_edge() {
    let mut board = Board::new(3);
    let mut white = PlayerModel::new(WHITE);
    let mut black = PlayerModel::new(BLACK);

    assert!(play_white(&mut board, &mut white, &mut black, 0, 0));
    assert!(play_white(&mut board, &mut white, &mut black, 0, 1));
    assert!(play_white(&mut board, &mut white, &mut black, 0, 2));
    let id = Board::generate_id(0, 2);
    assert_eq!(board.board_state[0][0].chain_id, id);
    assert_eq!(board.board_state[0][1].chain_id, id);
    assert_eq!(board.board_state[0][2].chain_id, id);

    assert!(play_white(&mut board, &mut white, &mut black, 1, 2));
    let id = Board::generate_id(1, 2);
    assert_eq!(board.board_state[1][2].chain_id, id);
    assert_eq!(board.board_state[0][2].chain_id, id);
    assert_eq!(white.player_chains.len(), 1);
    assert_eq!(white.player_chains[&id], vec![(1, 2), (0, 2), (0, 1), (0, 0)]);
}

#[test]
fn edge_capture_marks_and_counts() {
    let mut board = Board::new(3);
    let mut white = PlayerModel::new(WHITE);
    let mut black = PlayerModel::new(BLACK);

    for (r, c) in [(0, 0), (0, 1), (0, 2), (1, 0)] {
        assert!(play_white(&mut board, &mut white, &mut black, r, c));
    }
    for (r, c) in [(1, 1), (1, 2)] {
        assert!(play_black(&mut board, &mut white, &mut black, r, c));
    }
    assert!(play_white(&mut board, &mut white, &mut black, 2, 1));
    assert_eq!(board.white_captured, 0);
    assert!(play_white(&mut board, &mut white, &mut black, 2, 2));

    assert_eq!(board.board_state[1][1].player_color, WHITE_TERR);
    assert_eq!(board.board_state[1][2].player_color, WHITE_TERR);
    assert_eq!(board.white_captured, 2);
    assert_eq!(board.black_captured, 0);
    assert!(black.player_chains.is_empty());
    assert!(black.player_liberties.is_empty());
    assert!(!board.is_white_turn);
}

#[test]
fn corner_capture_counts_one() {
    let mut board = Board::new(2);
    let mut white = PlayerModel::new(WHITE);
    let mut black = PlayerModel::new(BLACK);

    assert!(play_white(&mut board, &mut white, &mut black, 0, 0));
    assert!(play_black(&mut board, &mut white, &mut black, 0, 1));
    assert_eq!(board.board_state[0][0].player_color, WHITE);
    assert!(play_black(&mut board, &mut white, &mut black, 1, 0));

    assert_eq!(board.board_state[0][0].player_color, BLACK_TERR);
    assert_eq!(board.black_captured, 1);
    assert_eq!(board.white_captured, 0);
    assert!(white.player_chains.is_empty());
}

#[test]
fn filling_the_last_liberty_is_refused_even_when_it_would_capture() {
    let mut board = Board::new(2);
    let mut white = PlayerModel::new(WHITE);
    let mut black = PlayerModel::new(BLACK);

    assert!(play_white(&mut board, &mut white, &mut black, 0, 0));
    assert!(play_black(&mut board, &mut white, &mut black, 1, 1));
    assert!(play_black(&mut board, &mut white, &mut black, 0, 1));
    let before = colors(&board);

    assert!(!play_black(&mut board, &mut white, &mut black, 1, 0));

    assert_eq!(colors(&board), before);
    assert_eq!(board.board_state[0][0].player_color, WHITE);
    assert_eq!(board.board_state[1][0].player_color, EMPTY);
    assert_eq!(board.black_captured, 0);
    assert!(!board.is_white_turn);
}

#[test]
fn occupied_intersection_is_refused_and_kept() {
    let mut board = Board::new(5);
    let mut white = PlayerModel::new(WHITE);
    let mut black = PlayerModel::new(BLACK);

    assert!(place_stone(&mut board, &mut white, &mut black, 2, 2));
    let cell = board.board_state[2][2];
    assert!(!place_stone(&mut board, &mut black, &mut white, 2, 2));
    assert_eq!(board.board_state[2][2], cell);
    assert_eq!(board.board_state[2][2].player_color, WHITE);
}

#[test]
fn refused_moves_change_nothing() {
    let mut board = Board::new(3);
    let mut white = PlayerModel::new(WHITE);
    let mut black = PlayerModel::new(BLACK);
    for (r, c) in [(0, 1), (1, 0), (1, 2), (2, 1)] {
        assert!(play_white(&mut board, &mut white, &mut black, r, c));
    }
    assert!(!board.is_white_turn);

    let seen_colors = colors(&board);
    let seen_labels = labels(&board);
    let white_chains = white.player_chains.clone();
    let white_liberties = white.player_liberties.clone();
    let black_chains = black.player_chains.clone();
    let black_liberties = black.player_liberties.clone();

    // out of turn, occupied, and without a liberty
    assert!(!place_stone(&mut board, &mut white, &mut black, 0, 0));
    assert!(!place_stone(&mut board, &mut black, &mut white, 0, 1));
    assert!(!place_stone(&mut board, &mut black, &mut white, 1, 1));

    assert_eq!(colors(&board), seen_colors);
    assert_eq!(labels(&board), seen_labels);
    assert_eq!(white.player_chains, white_chains);
    assert_eq!(white.player_liberties, white_liberties);
    assert_eq!(black.player_chains, black_chains);
    assert_eq!(black.player_liberties, black_liberties);
    assert!(!board.is_white_turn);
    assert_eq!(board.white_captured, 0);
    assert_eq!(board.black_captured, 0);
}

#[test]
fn accepted_move_passes_the_turn() {
    let mut board = Board::new(9);
    let mut white = PlayerModel::new(WHITE);
    let mut black = PlayerModel::new(BLACK);
    assert!(board.is_white_turn);
    assert!(place_stone(&mut board, &mut white, &mut black, 4, 4));
    assert!(!board.is_white_turn);
    assert!(place_stone(&mut board, &mut black, &mut white, 4, 5));
    assert!(board.is_white_turn);
}

#[test]
fn one_stone_joins_three_chains() {
    let mut board = Board::new(5);
    let mut white = PlayerModel::new(WHITE);
    let mut black = PlayerModel::new(BLACK);
    for (r, c) in [(2, 1), (2, 3), (1, 2)] {
        assert!(play_white(&mut board, &mut white, &mut black, r, c));
    }
    assert_eq!(white.player_chains.len(), 3);

    assert!(play_white(&mut board, &mut white, &mut black, 2, 2));

    let id = Board::generate_id(2, 2);
    assert_eq!(white.player_chains.len(), 1);
    // the new stone first, then the chains of its left, right and upper neighbours
    assert_eq!(white.player_chains[&id], vec![(2, 2), (2, 1), (2, 3), (1, 2)]);
    for (r, c) in [(2, 2), (2, 1), (2, 3), (1, 2)] {
        assert_eq!(board.board_state[r][c].chain_id, id);
    }
    assert!(!white.player_chains.contains_key(&Board::generate_id(2, 1)));
}

#[test]
fn neighbouring_stones_share_their_label_throughout_a_game() {
    let mut board = Board::new(4);
    let mut white = PlayerModel::new(WHITE);
    let mut black = PlayerModel::new(BLACK);
    let moves = [
        (0, 0), (3, 3), (0, 1), (3, 2), (1, 1), (2, 2), (1, 0), (2, 3), (0, 2), (1, 2), (0, 3),
        (2, 1), (1, 3), (2, 0), (3, 0), (3, 1),
    ];
    for (turn, (r, c)) in moves.iter().enumerate() {
        if turn % 2 == 0 {
            place_stone(&mut board, &mut white, &mut black, *r, *c);
        } else {
            place_stone(&mut board, &mut black, &mut white, *r, *c);
        }
        for row in 0..4 {
            for col in 0..4 {
                let here = board.board_state[row][col];
                if here.player_color != WHITE && here.player_color != BLACK {
                    continue;
                }
                let registry = if here.player_color == WHITE { &white } else { &black };
                assert!(registry.player_chains[&here.chain_id].contains(&(row, col)));
                if col + 1 < 4 && board.board_state[row][col + 1].player_color == here.player_color {
                    assert_eq!(board.board_state[row][col + 1].chain_id, here.chain_id);
                }
                if row + 1 < 4 && board.board_state[row + 1][col].player_color == here.player_color {
                    assert_eq!(board.board_state[row + 1][col].chain_id, here.chain_id);
                }
            }
        }
    }
}

#[test]
fn only_chains_without_a_liberty_are_taken() {
    let mut board = Board::new(4);
    let mut white = PlayerModel::new(WHITE);
    let mut black = PlayerModel::new(BLACK);
    // two black stones: one in the corner, one in the middle of the edge
    assert!(play_black(&mut board, &mut white, &mut black, 0, 0));
    assert!(play_black(&mut board, &mut white, &mut black, 0, 2));
    assert!(play_white(&mut board, &mut white, &mut black, 0, 1));
    assert!(play_white(&mut board, &mut white, &mut black, 1, 0));

    assert_eq!(board.board_state[0][0].player_color, WHITE_TERR);
    assert_eq!(board.board_state[0][2].player_color, BLACK);
    assert_eq!(board.white_captured, 1);
    let survivor = Board::generate_id(0, 2);
    let mut expected: HashMap<u128, Vec<(usize, usize)>> = HashMap::new();
    expected.insert(survivor, vec![(0, 2)]);
    assert_eq!(black.player_chains, expected);
    let mut liberties = black.player_liberties[&survivor].clone();
    liberties.sort();
    assert_eq!(liberties, vec![(0, 3), (1, 2)]);
}

#[test]
fn self_capture_looks_at_the_stone_and_its_direct_neighbours() {
    let mut board = Board::new(3);
    let mut white = PlayerModel::new(WHITE);
    let mut black = PlayerModel::new(BLACK);
    // a vacant corner next to white stones that still have liberties
    assert!(play_white(&mut board, &mut white, &mut black, 0, 1));
    assert!(play_white(&mut board, &mut white, &mut black, 1, 0));
    board.toggle_turn();
    assert!(board.is_white_turn);
    assert!(!check_for_self_capture(&mut board, 0, 0));
    board.toggle_turn();
    assert!(check_for_self_capture(&mut board, 0, 0));
    assert_eq!(board.board_state[0][0].player_color, EMPTY);
    assert!(!check_for_self_capture(&mut board, 2, 2));
}

#[test]
fn territory_markers_are_never_played_on() {
    let mut board = Board::new(2);
    let mut white = PlayerModel::new(WHITE);
    let mut black = PlayerModel::new(BLACK);
    assert!(play_white(&mut board, &mut white, &mut black, 0, 0));
    assert!(play_black(&mut board, &mut white, &mut black, 0, 1));
    assert!(play_black(&mut board, &mut white, &mut black, 1, 0));
    assert_eq!(board.board_state[0][0].player_color, BLACK_TERR);
    assert!(!play_white(&mut board, &mut white, &mut black, 0, 0));
    assert!(!play_black(&mut board, &mut white, &mut black, 0, 0));
    assert_eq!(board.board_state[0][0].player_color, BLACK_TERR);
}
