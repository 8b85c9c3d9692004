use go_engine::game::{Board, PlayerModel, BLACK, EMPTY, WHITE};

#[test]
fn test_board_initialization() {
    let board = Board::new(9);

    assert_eq!(board.board_size, 9);
    assert!(board.is_white_turn);
    for row in 0..9 {
        for col in 0..9 {
            assert_eq!(board.board_state[row][col].get_player_color(), EMPTY);
        }
    }
}

#[test]
fn test_player_model_initialization() {
    let white_player = PlayerModel::new(WHITE);
    let black_player = PlayerModel::new(BLACK);

    assert_eq!(white_player.get_player_color(), WHITE);
    assert_eq!(black_player.get_player_color(), BLACK);

    assert!(white_player.player_chains.is_empty());
    assert!(white_player.player_liberties.is_empty());
    assert!(black_player.player_chains.is_empty());
    assert!(black_player.player_liberties.is_empty());
}

#[test]
fn test_turn_toggling() {
    let mut board = Board::new(9);
    assert!(board.is_white_turn);

    board.toggle_turn();
    assert!(!board.is_white_turn);

    board.toggle_turn();
    assert!(board.is_white_turn);
}
