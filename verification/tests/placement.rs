use go_engine::game::{
    check_for_self_capture, place_stone, Board, PlayerModel, BLACK, WHITE, WHITE_TERR,
};

#[test]
fn test_place_stone() {
    let mut test_board: Board = Board::new(9);
    let mut black_player_model = PlayerModel::new(BLACK);
    let mut white_player_model = PlayerModel::new(WHITE);

    test_board.toggle_turn();
    let result1 = place_stone(&mut test_board, &mut black_player_model, &mut white_player_model, 2, 2);
    test_board.toggle_turn();
    assert_eq!(test_board.board_state[2][2].player_color, BLACK);
    let result2 = place_stone(&mut test_board, &mut black_player_model, &mut white_player_model, 8, 8);
    test_board.toggle_turn();
    let result3 = place_stone(&mut test_board, &mut black_player_model, &mut white_player_model, 8, 8);
    test_board.toggle_turn();
    assert_eq!(test_board.board_state[8][8].player_color, BLACK);
    assert_eq!(result1, true);
    assert_eq!(result2, true);
    assert_eq!(result3, false);
}

#[test]
fn test_check_for_chain() {
    let mut test_board: Board = Board::new(3);

    let mut black_player_model = PlayerModel::new(BLACK);
    let mut white_player_model = PlayerModel::new(WHITE);

    place_stone(&mut test_board, &mut white_player_model, &mut black_player_model, 0, 0);
    test_board.toggle_turn();
    place_stone(&mut test_board, &mut white_player_model, &mut black_player_model, 0, 1);
    test_board.toggle_turn();
    place_stone(&mut test_board, &mut white_player_model, &mut black_player_model, 0, 2);
    test_board.toggle_turn();
    assert_eq!(test_board.board_state[0][0].chain_id, test_board.board_state[0][1].chain_id);
    assert_eq!(test_board.board_state[0][1].chain_id, test_board.board_state[0][2].chain_id);
    place_stone(&mut test_board, &mut white_player_model, &mut black_player_model, 1, 2);
    assert_eq!(test_board.board_state[1][2].chain_id, test_board.board_state[0][2].chain_id);
}

#[test]
fn test_check_for_capture() {
    let mut test_board: Board = Board::new(3);

    let mut black_player_model = PlayerModel::new(BLACK);
    let mut white_player_model = PlayerModel::new(WHITE);

    place_stone(&mut test_board, &mut white_player_model, &mut black_player_model, 0, 0);
    test_board.toggle_turn();
    place_stone(&mut test_board, &mut white_player_model, &mut black_player_model, 0, 1);
    test_board.toggle_turn();
    place_stone(&mut test_board, &mut white_player_model, &mut black_player_model, 0, 2);
    test_board.toggle_turn();
    place_stone(&mut test_board, &mut white_player_model, &mut black_player_model, 1, 0);
    place_stone(&mut test_board, &mut black_player_model, &mut white_player_model, 1, 1);
    test_board.toggle_turn();
    place_stone(&mut test_board, &mut black_player_model, &mut white_player_model, 1, 2);
    place_stone(&mut test_board, &mut white_player_model, &mut black_player_model, 2, 1);
    test_board.toggle_turn();
    place_stone(&mut test_board, &mut white_player_model, &mut black_player_model, 2, 2);
    assert_eq!(test_board.board_state[1][1].player_color, WHITE_TERR);
    assert_eq!(test_board.board_state[1][2].player_color, WHITE_TERR);
}

#[test]
fn test_check_for_capture_corner() {
    let mut test_board: Board = Board::new(3);

    let mut black_player_model = PlayerModel::new(BLACK);
    let mut white_player_model = PlayerModel::new(WHITE);
    test_board.toggle_turn();

    place_stone(&mut test_board, &mut black_player_model, &mut white_player_model, 0, 0);

    place_stone(&mut test_board, &mut white_player_model, &mut black_player_model, 0, 1);
    test_board.toggle_turn();
    place_stone(&mut test_board, &mut white_player_model, &mut black_player_model, 1, 1);
    test_board.toggle_turn();
    place_stone(&mut test_board, &mut white_player_model, &mut black_player_model, 1, 0);

    assert_eq!(test_board.board_state[0][0].player_color, WHITE_TERR);
}

#[test]
fn test_check_for_self_capture() {
    let mut test_board: Board = Board::new(3);
    let mut black_player_model = PlayerModel::new(BLACK);
    let mut white_player_model = PlayerModel::new(WHITE);

    place_stone(&mut test_board, &mut white_player_model, &mut black_player_model, 0, 1);
    test_board.toggle_turn();
    place_stone(&mut test_board, &mut white_player_model, &mut black_player_model, 1, 0);
    test_board.toggle_turn();
    place_stone(&mut test_board, &mut white_player_model, &mut black_player_model, 1, 2);
    test_board.toggle_turn();
    place_stone(&mut test_board, &mut white_player_model, &mut black_player_model, 2, 1);

    assert!(check_for_self_capture(&mut test_board, 1, 1));

    let mut test_board2: Board = Board::new(3);

    place_stone(&mut test_board2, &mut white_player_model, &mut black_player_model, 0, 0);
    test_board2.toggle_turn();
    place_stone(&mut test_board2, &mut white_player_model, &mut black_player_model, 0, 1);

    assert!(!check_for_self_capture(&mut test_board2, 0, 2));

    let mut test_board3: Board = Board::new(2);

    place_stone(&mut test_board3, &mut white_player_model, &mut black_player_model, 0, 1);
    test_board3.toggle_turn();
    place_stone(&mut test_board3, &mut white_player_model, &mut black_player_model, 1, 0);

    assert!(check_for_self_capture(&mut test_board3, 0, 0));
}

#[test]
fn test_invalid_stone_placement() {
    let mut board = Board::new(9);
    let mut white_player = PlayerModel::new(WHITE);
    let mut black_player = PlayerModel::new(BLACK);

    assert!(place_stone(&mut board, &mut white_player, &mut black_player, 0, 0));

    assert!(!place_stone(&mut board, &mut black_player, &mut white_player, 0, 0));

    assert!(!place_stone(&mut board, &mut white_player, &mut black_player, 0, 1));
}

#[test]
fn test_chain_formation() {
    let mut board = Board::new(9);
    let mut white_player = PlayerModel::new(WHITE);
    let mut black_player = PlayerModel::new(BLACK);

    place_stone(&mut board, &mut white_player, &mut black_player, 0, 0);
    board.toggle_turn();
    place_stone(&mut board, &mut white_player, &mut black_player, 0, 1);
    board.toggle_turn();
    place_stone(&mut board, &mut white_player, &mut black_player, 0, 2);
    board.toggle_turn();

    let chain_id = board.board_state[0][0].chain_id.clone();
    assert_eq!(board.board_state[0][1].chain_id, chain_id);
    assert_eq!(board.board_state[0][2].chain_id, chain_id);

    assert!(white_player.player_chains.contains_key(&chain_id));
    assert_eq!(white_player.player_chains.get(&chain_id).unwrap().len(), 3);
}

#[test]
fn test_multiple_captures() {
    let mut board = Board::new(9);
    let mut white_player = PlayerModel::new(WHITE);
    let mut black_player = PlayerModel::new(BLACK);

    board.toggle_turn();
    place_stone(&mut board, &mut black_player, &mut white_player, 1, 1);
    board.toggle_turn();
    place_stone(&mut board, &mut black_player, &mut white_player, 2, 1);

    place_stone(&mut board, &mut white_player, &mut black_player, 0, 1);
    board.toggle_turn();
    place_stone(&mut board, &mut white_player, &mut black_player, 1, 0);
    board.toggle_turn();
    place_stone(&mut board, &mut white_player, &mut black_player, 1, 2);
    board.toggle_turn();
    place_stone(&mut board, &mut white_player, &mut black_player, 2, 0);
    board.toggle_turn();
    place_stone(&mut board, &mut white_player, &mut black_player, 2, 2);
    board.toggle_turn();
    place_stone(&mut board, &mut white_player, &mut black_player, 3, 1);

    assert_eq!(board.board_state[1][1].get_player_color(), WHITE_TERR);
    assert_eq!(board.board_state[2][1].get_player_color(), WHITE_TERR);
}
