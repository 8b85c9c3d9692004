use go_engine::board;
use go_engine::game::{
    check_for_conquered, cleanup_captured, get_adjacent, holds, liberties_of_chain,
    update_chain, update_player_liberties, Board, Intersection, Player, PlayerModel, BLACK,
    BLACK_TERR, EMPTY, WHITE, WHITE_TERR,
};

#[test]
fn identifiers_pack_row_and_column() {
    assert_eq!(Board::generate_id(0, 0), 0u128);
    assert_eq!(Board::generate_id(0, 7), 7u128);
    assert_eq!(Board::generate_id(1, 0), 18446744073709551616u128);
    assert_eq!(Board::generate_id(2, 3), 36893488147419103235u128);
    assert_ne!(Board::generate_id(1, 2), Board::generate_id(2, 1));
}

#[test]
fn new_intersection_is_vacant_and_self_labelled() {
    let cell = Intersection::new(4, 6);
    assert_eq!(cell.get_player_color(), EMPTY);
    assert_eq!(cell.player_color, EMPTY);
    assert_eq!(cell.chain_id, Board::generate_id(4, 6));
    assert_eq!((cell.row, cell.col), (4, 6));
}

#[test]
fn player_records_both_colours() {
    let player = Player::new(WHITE, BLACK);
    assert_eq!(player.player_color, WHITE);
    assert_eq!(player.opponent_color, BLACK);
}

#[test]
fn unknown_colour_stands_for_black() {
    let model = PlayerModel::new(7);
    assert_eq!(model.get_player_color(), BLACK);
    assert_eq!(model.player.opponent_color, WHITE);
    let model = PlayerModel::new(WHITE);
    assert_eq!(model.player.opponent_color, BLACK);
}

#[test]
fn board_start_records_coordinates() {
    let rows = Board::build_board_start(3);
    assert_eq!(rows.len(), 3);
    for (r, row) in rows.iter().enumerate() {
        assert_eq!(row.len(), 3);
        for (c, cell) in row.iter().enumerate() {
            assert_eq!(*cell, Intersection::new(r, c));
        }
    }
    let board = Board::new(1);
    assert_eq!(board.board_state.len(), 1);
    assert_eq!(board.white_captured, 0);
    assert_eq!(board.black_captured, 0);
}

#[test]
fn update_board_color_touches_one_intersection() {
    let mut board = Board::new(3);
    board.update_board_color(1, 2, BLACK);
    for r in 0..3 {
        for c in 0..3 {
            let expected = if (r, c) == (1, 2) { BLACK } else { EMPTY };
            assert_eq!(board.board_state[r][c].player_color, expected);
            assert_eq!(board.board_state[r][c].chain_id, Board::generate_id(r, c));
        }
    }
    assert!(board.is_white_turn);
}

#[test]
fn occupancy_grid_starts_vacant() {
    let grid = board::Board::new(4);
    assert_eq!(grid.board_size, 4);
    assert_eq!(grid.board_state, vec![vec![0u8; 4]; 4]);
    let none = board::Board::new(0);
    assert!(none.board_state.is_empty());
    assert_ne!(board::Color::WHITE, board::Color::BLACK);
}

#[test]
fn neighbours_come_left_right_up_down() {
    let mut board = Board::new(3);
    assert_eq!(
        get_adjacent(&mut board.board_state, 3, 1, 1, EMPTY),
        vec![(1, 0), (1, 2), (0, 1), (2, 1)]
    );
    assert_eq!(get_adjacent(&mut board.board_state, 3, 0, 0, EMPTY), vec![(0, 1), (1, 0)]);
    assert_eq!(get_adjacent(&mut board.board_state, 3, 2, 2, EMPTY), vec![(2, 1), (1, 2)]);
    assert_eq!(get_adjacent(&mut board.board_state, 3, 1, 1, WHITE), vec![]);
    board.update_board_color(0, 1, WHITE);
    board.update_board_color(1, 2, WHITE);
    assert_eq!(get_adjacent(&mut board.board_state, 3, 1, 1, WHITE), vec![(1, 2), (0, 1)]);
    assert_eq!(get_adjacent(&mut board.board_state, 3, 1, 1, EMPTY), vec![(1, 0), (2, 1)]);
    let mut single = Board::new(1);
    assert_eq!(get_adjacent(&mut single.board_state, 1, 0, 0, EMPTY), vec![]);
}

#[test]
fn holds_finds_listed_positions() {
    let list = vec![(0, 1), (2, 2)];
    assert!(holds(&list, (2, 2)));
    assert!(!holds(&list, (1, 0)));
    assert!(!holds(&Vec::new(), (0, 0)));
}

#[test]
fn shared_liberties_are_listed_once() {
    let mut board = Board::new(3);
    board.update_board_color(0, 0, WHITE);
    board.update_board_color(1, 1, WHITE);
    // (0,1) and (1,0) each touch both stones
    let chain = vec![(0, 0), (1, 1)];
    let liberties = liberties_of_chain(&mut board.board_state, 3, &chain);
    assert_eq!(liberties, vec![(0, 1), (1, 0), (1, 2), (2, 1)]);
    let none: Vec<(usize, usize)> = Vec::new();
    assert_eq!(liberties_of_chain(&mut board.board_state, 3, &none), vec![]);
}

#[test]
fn recomputing_liberties_twice_gives_the_same_sets() {
    let mut board = Board::new(3);
    let mut white = PlayerModel::new(WHITE);
    board.update_board_color(0, 0, WHITE);
    board.update_board_color(0, 1, WHITE);
    board.update_board_color(2, 2, WHITE);
    board.update_board_color(1, 2, BLACK);
    white.add_player_chain(5, vec![(0, 0), (0, 1)]);
    white.add_player_chain(9, vec![(2, 2)]);

    let first = update_player_liberties(&mut board.board_state, 3, &mut white);
    white.set_player_liberties(first.clone());
    let second = update_player_liberties(&mut board.board_state, 3, &mut white);

    assert_eq!(first, second);
    assert_eq!(first.len(), 2);
    assert_eq!(first[&5], vec![(1, 0), (0, 2), (1, 1)]);
    assert_eq!(first[&9], vec![(2, 1)]);
    assert_eq!(white.player_chains.len(), 2);
}

#[test]
fn update_chain_folds_neighbouring_chains() {
    let mut board = Board::new(3);
    let mut white = PlayerModel::new(WHITE);
    let left = Board::generate_id(1, 0);
    let up = Board::generate_id(0, 1);
    for (r, c) in [(1, 0), (0, 1), (0, 0)] {
        board.update_board_color(r, c, WHITE);
    }
    board.board_state[0][0].chain_id = up;
    white.add_player_chain(left, vec![(1, 0)]);
    white.add_player_chain(up, vec![(0, 1), (0, 0)]);
    white.add_player_liberties(left, vec![(2, 0), (1, 1)]);
    board.update_board_color(1, 1, WHITE);

    let friends = get_adjacent(&mut board.board_state, 3, 1, 1, WHITE);
    assert_eq!(friends, vec![(1, 0), (0, 1)]);
    let chain = update_chain(&mut board.board_state, &mut white, friends, 1, 1);

    assert_eq!(chain, vec![(1, 1), (1, 0), (0, 1), (0, 0)]);
    assert!(white.player_chains.is_empty());
    assert!(white.player_liberties.is_empty());
    for (r, c) in [(1, 1), (1, 0), (0, 1), (0, 0)] {
        assert_eq!(board.board_state[r][c].chain_id, Board::generate_id(1, 1));
        assert_eq!(board.board_state[r][c].player_color, WHITE);
    }
    assert_eq!(board.board_state[2][2].chain_id, Board::generate_id(2, 2));
}

#[test]
fn update_chain_takes_a_shared_chain_once() {
    let mut board = Board::new(3);
    let mut black = PlayerModel::new(BLACK);
    let id = Board::generate_id(0, 0);
    // an L-shaped chain that touches (1,1) twice
    for (r, c) in [(0, 0), (0, 1), (1, 0)] {
        board.update_board_color(r, c, BLACK);
        board.board_state[r][c].chain_id = id;
    }
    black.add_player_chain(id, vec![(0, 0), (0, 1), (1, 0)]);
    board.update_board_color(1, 1, BLACK);
    let chain = update_chain(&mut board.board_state, &mut black, vec![(1, 0), (0, 1)], 1, 1);
    assert_eq!(chain, vec![(1, 1), (0, 0), (0, 1), (1, 0)]);
    assert!(black.player_chains.is_empty());
}

#[test]
fn conquered_chains_are_marked_and_reported() {
    let mut board = Board::new(3);
    let mut white = PlayerModel::new(WHITE);
    board.update_board_color(0, 0, WHITE);
    board.update_board_color(2, 2, WHITE);
    board.update_board_color(1, 1, WHITE);
    white.add_player_chain(1, vec![(0, 0)]);
    white.add_player_chain(2, vec![(2, 2)]);
    white.add_player_chain(3, vec![(1, 1)]);
    white.add_player_liberties(1, vec![]);
    white.add_player_liberties(2, vec![(2, 1)]);
    // no liberties are cached for chain 3, and chain 4 is not registered
    white.add_player_liberties(4, vec![]);

    let removed = check_for_conquered(&mut white, &mut board.board_state);

    assert_eq!(removed, vec![1]);
    assert_eq!(board.board_state[0][0].player_color, BLACK_TERR);
    assert_eq!(board.board_state[2][2].player_color, WHITE);
    assert_eq!(board.board_state[1][1].player_color, WHITE);
    assert_eq!(white.player_chains.len(), 3);
    assert_eq!(white.player_liberties.len(), 3);

    cleanup_captured(&mut white, removed);
    assert_eq!(white.player_chains.len(), 2);
    assert!(!white.player_chains.contains_key(&1));
    assert!(!white.player_liberties.contains_key(&1));
    assert!(white.player_liberties.contains_key(&2));
    assert!(white.player_liberties.contains_key(&4));
}

#[test]
fn captured_black_stones_become_white_territory() {
    let mut board = Board::new(2);
    let mut black = PlayerModel::new(BLACK);
    board.update_board_color(0, 0, BLACK);
    board.update_board_color(0, 1, BLACK);
    black.add_player_chain(8, vec![(0, 0), (0, 1), (1, 1)]);
    black.add_player_liberties(8, vec![]);
    let removed = check_for_conquered(&mut black, &mut board.board_state);
    assert_eq!(removed, vec![8]);
    assert_eq!(board.board_state[0][0].player_color, WHITE_TERR);
    assert_eq!(board.board_state[0][1].player_color, WHITE_TERR);
    // a listed intersection that holds no stone is left alone
    assert_eq!(board.board_state[1][1].player_color, EMPTY);
}

#[test]
fn cleanup_ignores_unknown_keys() {
    let mut white = PlayerModel::new(WHITE);
    white.add_player_chain(1, vec![(0, 0)]);
    white.add_player_liberties(1, vec![(0, 1)]);
    cleanup_captured(&mut white, vec![2, 2]);
    assert_eq!(white.player_chains.len(), 1);
    cleanup_captured(&mut white, vec![1, 2, 1]);
    assert!(white.player_chains.is_empty());
    assert!(white.player_liberties.is_empty());
}

#[test]
fn registry_chain_entries() {
    let mut model = PlayerModel::new(WHITE);
    model.add_player_chain(7, vec![(0, 0), (0, 1)]);
    model.add_player_chain(7, vec![(0, 2)]);
    model.add_player_chain_item(7, (1, 2));
    model.add_player_chain_item(9, (3, 3));
    assert_eq!(model.player_chains[&7], vec![(0, 0), (0, 1), (0, 2), (1, 2)]);
    assert_eq!(model.player_chains[&9], vec![(3, 3)]);

    model.update_player_chains(7, 1, (5, 5));
    model.update_player_chains(7, 4, (6, 6));
    model.update_player_chains(8, 0, (6, 6));
    assert_eq!(model.player_chains[&7], vec![(0, 0), (5, 5), (0, 2), (1, 2)]);
    assert_eq!(model.player_chains.len(), 2);

    assert_eq!(model.remove_player_chain_item(7, 0), Some((0, 0)));
    assert_eq!(model.remove_player_chain_item(7, 3), None);
    assert_eq!(model.remove_player_chain_item(8, 0), None);
    assert_eq!(model.player_chains[&7], vec![(5, 5), (0, 2), (1, 2)]);

    assert_eq!(model.remove_player_chain(7), Some((7, vec![(5, 5), (0, 2), (1, 2)])));
    assert_eq!(model.remove_player_chain(7), None);
    assert_eq!(model.player_chains.len(), 1);
    assert!(model.player_liberties.is_empty());
}

#[test]
fn registry_liberty_entries() {
    let mut model = PlayerModel::new(BLACK);
    model.add_player_liberties(7, vec![(0, 0), (0, 1)]);
    model.add_player_liberties(7, vec![(0, 2)]);
    model.add_player_liberties_item(7, (1, 2));
    model.add_player_liberties_item(9, (3, 3));
    assert_eq!(model.player_liberties[&7], vec![(0, 0), (0, 1), (0, 2), (1, 2)]);
    assert_eq!(model.player_liberties[&9], vec![(3, 3)]);

    model.update_player_liberties(7, 1, (5, 5));
    model.update_player_liberties(7, 4, (6, 6));
    model.update_player_liberties(8, 0, (6, 6));
    assert_eq!(model.player_liberties[&7], vec![(0, 0), (5, 5), (0, 2), (1, 2)]);

    assert_eq!(model.remove_player_liberties_item(7, 0), Some((0, 0)));
    assert_eq!(model.remove_player_liberties_item(7, 3), None);
    assert_eq!(model.remove_player_liberties_item(8, 0), None);

    assert_eq!(model.remove_player_liberties(7), Some((7, vec![(5, 5), (0, 2), (1, 2)])));
    assert_eq!(model.remove_player_liberties(7), None);
    assert_eq!(model.player_liberties.len(), 1);
    assert!(model.player_chains.is_empty());

    let mut fresh = std::collections::HashMap::new();
    fresh.insert(3u128, vec![(1usize, 1usize)]);
    model.set_player_liberties(fresh.clone());
    assert_eq!(model.player_liberties, fresh);
}
