//! The board, the per-player chain registries and the placement of stones.

use std::collections::HashMap;
use vstd::prelude::*;
use vstd::std_specs::iter::IteratorSpec;
use crate::counting::{
    lemma_capture_tally, lemma_chains_apart, lemma_members_tracked, lemma_on_board_bound,
};
use crate::laws::lemma_placement_keeps_sound;
use crate::rules::{
    adjacent, adjacent_of_color, candidate_group, captured_marker, cells_of_color, chain_at,
    chain_tracked, chains_after_merge, chains_labelled, chains_tracked, color_at, doomed,
    friend_ids, grid_after_capture, grid_after_merge, has_liberty, id_of, in_chains, is_doomed,
    is_liberty, joined, labels_of, legal_move, lemma_adjacent_of_color, lemma_has_liberty,
    lemma_id_of_injective, lemma_liberties_grow, lemma_mark_one_more, lemma_marked_square,
    lemma_markers_after_merge, lemma_members_of_insert, lemma_merged_members,
    lemma_relabel_one_more, lemma_relabelled_square, lemma_square_rows,
    lemma_tracked_after_merge, lemma_with_color, lemma_with_color_neighbours,
    lemma_with_color_restores, liberties_on, liberty_set, marked, members_of, merged_members,
    on_board, relabelled, self_capture, side_sound, side_to_move, smothered, square,
    vacant_labelled, with_color, with_label, Grid, Position,
};

verus! {

/// A vacant intersection.
pub const EMPTY: u8 = 0;

/// A white stone.
pub const WHITE: u8 = 1;

/// A black stone.
pub const BLACK: u8 = 2;

/// An intersection where White captured a black stone.
pub const WHITE_TERR: u8 = 3;

/// An intersection where Black captured a white stone.
pub const BLACK_TERR: u8 = 4;

/// One intersection of the board: what occupies it and which chain it was
/// last labelled with. The label means nothing while the intersection is
/// vacant.
#[derive(Clone, Copy, Debug, PartialEq, Eq, Structural)]
pub struct Intersection {
    pub player_color: u8,
    pub chain_id: u128,
    pub row: usize,
    pub col: usize,
}

impl Intersection {
    /// A vacant intersection at (`row`, `col`), labelled with its own
    /// identifier.
    pub fn new(row: usize, col: usize) -> (cell: Self)
        ensures
            cell == (Intersection { player_color: EMPTY, chain_id: id_of(row, col), row, col }),
    {
        Intersection { player_color: EMPTY, chain_id: Board::generate_id(row, col), row, col }
    }

    /// What occupies the intersection: `EMPTY`, a stone, or a territory
    /// marker.
    pub fn get_player_color(&self) -> (color: u8)
        ensures
            color == self.player_color,
    {
        self.player_color
    }
}

/// A colour and the colour it plays against.
#[derive(Clone, Copy, Debug, PartialEq, Eq, Structural)]
pub struct Player {
    pub player_color: u8,
    pub opponent_color: u8,
}

impl Player {
    /// A side and the side it plays against.
    pub fn new(new_player_color: u8, opponent_color: u8) -> (player: Self)
        ensures
            player == (Player { player_color: new_player_color, opponent_color }),
    {
        Player { player_color: new_player_color, opponent_color }
    }
}

/// The member or liberty lists of a registry, keyed by chain identifier.
pub open spec fn lists_of(m: Map<u128, Vec<(usize, usize)>>) -> Map<u128, Seq<Position>> {
    Map::new(|k: u128| m.contains_key(k), |k: u128| m[k]@)
}

/// The liberty lists of a registry read as sets.
pub open spec fn sets_of(m: Map<u128, Seq<Position>>) -> Map<u128, Set<Position>> {
    Map::new(|k: u128| m.contains_key(k), |k: u128| m[k].to_set())
}

/// What one side knows of its stones: the members of each of its chains, and
/// the liberties of each chain as they were last computed.
#[derive(Debug)]
pub struct PlayerModel {
    pub player_chains: HashMap<u128, Vec<(usize, usize)>>,
    pub player_liberties: HashMap<u128, Vec<(usize, usize)>>,
    pub player: Player,
}

/// What a `PlayerModel` holds, as mathematical values: chains are ordered,
/// liberties are sets.
pub struct PlayerModelView {
    pub chains: Map<u128, Seq<Position>>,
    pub liberties: Map<u128, Set<Position>>,
    pub player: Player,
}

impl View for PlayerModel {
    type V = PlayerModelView;

    open spec fn view(&self) -> PlayerModelView {
        PlayerModelView {
            chains: self.chains(),
            liberties: sets_of(self.liberty_lists()),
            player: self.player,
        }
    }
}

impl PlayerModel {
    /// The members of each chain, in the order they were recorded.
    pub open spec fn chains(&self) -> Map<u128, Seq<Position>> {
        lists_of(self.player_chains@)
    }

    /// The cached liberties of each chain, as recorded.
    pub open spec fn liberty_lists(&self) -> Map<u128, Seq<Position>> {
        lists_of(self.player_liberties@)
    }

    /// The registry is that of White or of Black, and it agrees with the
    /// board.
    pub open spec fn sound_on(&self, board: &Board) -> bool {
        &&& self.player == (Player { player_color: WHITE, opponent_color: BLACK }) || self.player
            == (Player { player_color: BLACK, opponent_color: WHITE })
        &&& side_sound(
            board@.grid,
            board.board_size,
            self.chains(),
            self.liberty_lists(),
            self.player.player_color,
        )
    }

    /// Every member of every chain lies on a board of `n` by `n`.
    pub open spec fn fits(&self, n: usize) -> bool {
        forall|k: u128, i: int|
            #![trigger self.chains()[k][i]]
            self.chains().contains_key(k) && 0 <= i < self.chains()[k].len() ==> on_board(
                n,
                self.chains()[k][i],
            )
    }

    /// The registry of the side that plays `player_color`, with no chain
    /// yet. Any colour other than `WHITE` stands for `BLACK`.
    pub fn new(player_color: u8) -> (model: Self)
        ensures
            model.chains() == Map::<u128, Seq<Position>>::empty(),
            model.liberty_lists() == Map::<u128, Seq<Position>>::empty(),
            player_color == WHITE ==> model.player == (Player {
                player_color: WHITE,
                opponent_color: BLACK,
            }),
            player_color != WHITE ==> model.player == (Player {
                player_color: BLACK,
                opponent_color: WHITE,
            }),
    {
        let (new_player_color, opponent_color) = if player_color == 1 {
            (1u8, 2u8)
        } else {
            (2u8, 1u8)
        };
        let model = PlayerModel {
            player_chains: HashMap::new(),
            player_liberties: HashMap::new(),
            player: Player::new(new_player_color, opponent_color),
        };
        assert(model.chains() =~= Map::<u128, Seq<Position>>::empty());
        assert(model.liberty_lists() =~= Map::<u128, Seq<Position>>::empty());
        model
    }

    /// The colour of the side that this registry belongs to.
    pub fn get_player_color(&self) -> (color: u8)
        ensures
            color == self.player.player_color,
    {
        self.player.player_color
    }

    /// Overwrites member `index` of the chain `chain_key`. Nothing happens
    /// if there is no such chain or no such member.
    pub fn update_player_chains(&mut self, chain_key: u128, index: usize, new_value: (usize, usize))
        ensures
            final(self).chains() == if old(self).chains().contains_key(chain_key) && index < old(
                self,
            ).chains()[chain_key].len() {
                old(self).chains().insert(
                    chain_key,
                    old(self).chains()[chain_key].update(index as int, new_value),
                )
            } else {
                old(self).chains()
            },
            final(self).player_liberties == old(self).player_liberties,
            final(self).player == old(self).player,
    {
        let ghost before = self.chains();
        match self.player_chains.remove(&chain_key) {
            Some(mut members) => {
                if index < members.len() {
                    members.set(index, new_value);
                }
                self.player_chains.insert(chain_key, members);
                assert(self.chains() =~= if index < before[chain_key].len() {
                    before.insert(chain_key, before[chain_key].update(index as int, new_value))
                } else {
                    before
                });
            },
            None => {
                assert(self.chains() =~= before);
            },
        }
    }

    /// Takes the chain `chain_key` out of the registry and hands it back
    /// with its key.
    pub fn remove_player_chain(&mut self, chain_key: u128) -> (removed: Option<
        (u128, Vec<(usize, usize)>),
    >)
        ensures
            final(self).chains() == old(self).chains().remove(chain_key),
            final(self).player_liberties == old(self).player_liberties,
            final(self).player == old(self).player,
            match removed {
                Some((key, members)) => old(self).chains().contains_key(chain_key) && key
                    == chain_key && members@ == old(self).chains()[chain_key],
                None => !old(self).chains().contains_key(chain_key),
            },
    {
        let ghost before = self.chains();
        let taken = self.player_chains.remove(&chain_key);
        assert(self.chains() =~= before.remove(chain_key));
        match taken {
            Some(members) => Some((chain_key, members)),
            None => None,
        }
    }

    /// Takes member `index` out of the chain `chain_key`. Nothing happens
    /// if there is no such chain or no such member.
    pub fn remove_player_chain_item(&mut self, chain_key: u128, index: usize) -> (removed: Option<
        (usize, usize),
    >)
        ensures
            removed is Some <==> old(self).chains().contains_key(chain_key) && index < old(
                self,
            ).chains()[chain_key].len(),
            removed is Some ==> removed->0 == old(self).chains()[chain_key][index as int]
                && final(self).chains() == old(self).chains().insert(
                chain_key,
                old(self).chains()[chain_key].remove(index as int),
            ),
            removed is None ==> final(self).chains() == old(self).chains(),
            final(self).player_liberties == old(self).player_liberties,
            final(self).player == old(self).player,
    {
        let ghost before = self.chains();
        match self.player_chains.remove(&chain_key) {
            Some(mut members) => {
                let removed = if index < members.len() {
                    Some(members.remove(index))
                } else {
                    None
                };
                self.player_chains.insert(chain_key, members);
                assert(self.chains() =~= if index < before[chain_key].len() {
                    before.insert(chain_key, before[chain_key].remove(index as int))
                } else {
                    before
                });
                removed
            },
            None => {
                assert(self.chains() =~= before);
                None
            },
        }
    }

    /// Appends `new_chain` to the chain `chain_key`, which starts out empty
    /// if the registry does not hold it yet.
    pub fn add_player_chain(&mut self, chain_key: u128, new_chain: Vec<(usize, usize)>)
        ensures
            final(self).chains() == old(self).chains().insert(
                chain_key,
                recorded(old(self).chains(), chain_key) + new_chain@,
            ),
            final(self).player_liberties == old(self).player_liberties,
            final(self).player == old(self).player,
    {
        let ghost before = self.chains();
        let ghost added = new_chain@;
        let mut new_chain = new_chain;
        let mut members = match self.player_chains.remove(&chain_key) {
            Some(members) => members,
            None => Vec::new(),
        };
        assert(members@ =~= recorded(before, chain_key));
        members.append(&mut new_chain);
        self.player_chains.insert(chain_key, members);
        assert(self.chains() =~= before.insert(
            chain_key,
            recorded(before, chain_key) + added,
        ));
    }

    /// Appends one member to the chain `chain_key`, which starts out empty
    /// if the registry does not hold it yet.
    pub fn add_player_chain_item(&mut self, chain_key: u128, item: (usize, usize))
        ensures
            final(self).chains() == old(self).chains().insert(
                chain_key,
                recorded(old(self).chains(), chain_key).push(item),
            ),
            final(self).player_liberties == old(self).player_liberties,
            final(self).player == old(self).player,
    {
        let ghost before = self.chains();
        let mut members = match self.player_chains.remove(&chain_key) {
            Some(members) => members,
            None => Vec::new(),
        };
        assert(members@ =~= recorded(before, chain_key));
        members.push(item);
        self.player_chains.insert(chain_key, members);
        assert(self.chains() =~= before.insert(chain_key, recorded(before, chain_key).push(item)));
    }

    /// Overwrites liberty `index` of the chain `chain_key`. Nothing happens
    /// if no liberties are cached for the chain or there is no such entry.
    pub fn update_player_liberties(
        &mut self,
        chain_key: u128,
        index: usize,
        new_value: (usize, usize),
    )
        ensures
            final(self).liberty_lists() == if old(self).liberty_lists().contains_key(chain_key)
                && index < old(self).liberty_lists()[chain_key].len() {
                old(self).liberty_lists().insert(
                    chain_key,
                    old(self).liberty_lists()[chain_key].update(index as int, new_value),
                )
            } else {
                old(self).liberty_lists()
            },
            final(self).player_chains == old(self).player_chains,
            final(self).player == old(self).player,
    {
        let ghost before = self.liberty_lists();
        match self.player_liberties.remove(&chain_key) {
            Some(mut liberties) => {
                if index < liberties.len() {
                    liberties.set(index, new_value);
                }
                self.player_liberties.insert(chain_key, liberties);
                assert(self.liberty_lists() =~= if index < before[chain_key].len() {
                    before.insert(chain_key, before[chain_key].update(index as int, new_value))
                } else {
                    before
                });
            },
            None => {
                assert(self.liberty_lists() =~= before);
            },
        }
    }

    /// Drops the cached liberties of the chain `chain_key` and hands them
    /// back with the key.
    pub fn remove_player_liberties(&mut self, chain_key: u128) -> (removed: Option<
        (u128, Vec<(usize, usize)>),
    >)
        ensures
            final(self).liberty_lists() == old(self).liberty_lists().remove(chain_key),
            final(self).player_chains == old(self).player_chains,
            final(self).player == old(self).player,
            match removed {
                Some((key, liberties)) => old(self).liberty_lists().contains_key(chain_key) && key
                    == chain_key && liberties@ == old(self).liberty_lists()[chain_key],
                None => !old(self).liberty_lists().contains_key(chain_key),
            },
    {
        let ghost before = self.liberty_lists();
        let taken = self.player_liberties.remove(&chain_key);
        assert(self.liberty_lists() =~= before.remove(chain_key));
        match taken {
            Some(liberties) => Some((chain_key, liberties)),
            None => None,
        }
    }

    /// Takes entry `index` out of the cached liberties of the chain
    /// `chain_key`. Nothing happens if there is no such entry.
    pub fn remove_player_liberties_item(&mut self, chain_key: u128, index: usize) -> (removed:
        Option<(usize, usize)>)
        ensures
            removed is Some <==> old(self).liberty_lists().contains_key(chain_key) && index < old(
                self,
            ).liberty_lists()[chain_key].len(),
            removed is Some ==> removed->0 == old(self).liberty_lists()[chain_key][index as int]
                && final(self).liberty_lists() == old(self).liberty_lists().insert(
                chain_key,
                old(self).liberty_lists()[chain_key].remove(index as int),
            ),
            removed is None ==> final(self).liberty_lists() == old(self).liberty_lists(),
            final(self).player_chains == old(self).player_chains,
            final(self).player == old(self).player,
    {
        let ghost before = self.liberty_lists();
        match self.player_liberties.remove(&chain_key) {
            Some(mut liberties) => {
                let removed = if index < liberties.len() {
                    Some(liberties.remove(index))
                } else {
                    None
                };
                self.player_liberties.insert(chain_key, liberties);
                assert(self.liberty_lists() =~= if index < before[chain_key].len() {
                    before.insert(chain_key, before[chain_key].remove(index as int))
                } else {
                    before
                });
                removed
            },
            None => {
                assert(self.liberty_lists() =~= before);
                None
            },
        }
    }

    /// Appends `new_liberties` to the cached liberties of the chain
    /// `chain_key`, which start out empty if none are cached yet.
    pub fn add_player_liberties(&mut self, chain_key: u128, new_liberties: Vec<(usize, usize)>)
        ensures
            final(self).liberty_lists() == old(self).liberty_lists().insert(
                chain_key,
                recorded(old(self).liberty_lists(), chain_key) + new_liberties@,
            ),
            final(self).player_chains == old(self).player_chains,
            final(self).player == old(self).player,
    {
        let ghost before = self.liberty_lists();
        let ghost added = new_liberties@;
        let mut new_liberties = new_liberties;
        let mut liberties = match self.player_liberties.remove(&chain_key) {
            Some(liberties) => liberties,
            None => Vec::new(),
        };
        assert(liberties@ =~= recorded(before, chain_key));
        liberties.append(&mut new_liberties);
        self.player_liberties.insert(chain_key, liberties);
        assert(self.liberty_lists() =~= before.insert(
            chain_key,
            recorded(before, chain_key) + added,
        ));
    }

    /// Appends one liberty to the cached liberties of the chain
    /// `chain_key`, which start out empty if none are cached yet.
    pub fn add_player_liberties_item(&mut self, chain_key: u128, item: (usize, usize))
        ensures
            final(self).liberty_lists() == old(self).liberty_lists().insert(
                chain_key,
                recorded(old(self).liberty_lists(), chain_key).push(item),
            ),
            final(self).player_chains == old(self).player_chains,
            final(self).player == old(self).player,
    {
        let ghost before = self.liberty_lists();
        let mut liberties = match self.player_liberties.remove(&chain_key) {
            Some(liberties) => liberties,
            None => Vec::new(),
        };
        assert(liberties@ =~= recorded(before, chain_key));
        liberties.push(item);
        self.player_liberties.insert(chain_key, liberties);
        assert(self.liberty_lists() =~= before.insert(
            chain_key,
            recorded(before, chain_key).push(item),
        ));
    }

    /// Replaces the whole liberty cache.
    pub fn set_player_liberties(&mut self, updated_liberties: HashMap<u128, Vec<(usize, usize)>>)
        ensures
            final(self).player_liberties == updated_liberties,
            final(self).player_chains == old(self).player_chains,
            final(self).player == old(self).player,
    {
        self.player_liberties = updated_liberties;
    }
}

/// The list recorded under `key`, or the empty list if there is none.
pub open spec fn recorded(lists: Map<u128, Seq<Position>>, key: u128) -> Seq<Position> {
    if lists.contains_key(key) {
        lists[key]
    } else {
        Seq::empty()
    }
}

/// The grid that a vector of rows stands for.
pub open spec fn grid_of(state: Seq<Vec<Intersection>>) -> Grid {
    Seq::new(state.len(), |r: int| state[r]@)
}

/// The board with every intersection vacant and labelled with its own
/// identifier.
pub open spec fn vacant_grid(n: usize) -> Grid {
    Seq::new(
        n as nat,
        |r: int|
            Seq::new(
                n as nat,
                |c: int|
                    Intersection {
                        player_color: EMPTY,
                        chain_id: id_of(r as usize, c as usize),
                        row: r as usize,
                        col: c as usize,
                    },
            ),
    )
}

/// The intersections of the game, the stones each side has captured and whose
/// turn it is.
pub struct Board {
    pub board_size: usize,
    pub board_state: Vec<Vec<Intersection>>,
    pub white_captured: usize,
    pub black_captured: usize,
    pub is_white_turn: bool,
}

/// What a `Board` holds, as mathematical values.
pub struct BoardView {
    pub board_size: usize,
    pub grid: Grid,
    pub white_captured: usize,
    pub black_captured: usize,
    pub is_white_turn: bool,
}

impl View for Board {
    type V = BoardView;

    open spec fn view(&self) -> BoardView {
        BoardView {
            board_size: self.board_size,
            grid: grid_of(self.board_state@),
            white_captured: self.white_captured,
            black_captured: self.black_captured,
            is_white_turn: self.is_white_turn,
        }
    }
}

impl Board {
    /// The rows are complete and every intersection records where it lies.
    pub open spec fn well_formed(&self) -> bool {
        square(self@.grid, self.board_size)
    }

    /// Vacant intersections carry their own identifier, and each capture
    /// counter equals the number of territory markers of its side, which the
    /// counter's type can hold for any board of this size.
    pub open spec fn settled(&self) -> bool {
        &&& vacant_labelled(self@.grid, self.board_size)
        &&& self.board_size * self.board_size <= usize::MAX
        &&& self.white_captured == cells_of_color(self@.grid, self.board_size, WHITE_TERR).len()
        &&& self.black_captured == cells_of_color(self@.grid, self.board_size, BLACK_TERR).len()
    }

    /// The identifier of the chain that a stone placed at (`row`, `col`)
    /// starts.
    pub fn generate_id(row: usize, col: usize) -> (id: u128)
        ensures
            id == id_of(row, col),
    {
        (row as u128) * 0x1_0000_0000_0000_0000u128 + (col as u128)
    }

    /// The rows of a board of `board_size` by `board_size` vacant
    /// intersections.
    pub fn build_board_start(board_size: usize) -> (rows: Vec<Vec<Intersection>>)
        requires
            board_size > 0,
        ensures
            grid_of(rows@) == vacant_grid(board_size),
    {
        let mut b_rows: Vec<Vec<Intersection>> = Vec::new();
        let mut row: usize = 0;
        while row < board_size
            invariant
                row <= board_size,
                b_rows@.len() == row,
                forall|r: int| 0 <= r < row ==> (#[trigger] b_rows@[r])@ == vacant_grid(board_size)[r],
            decreases board_size - row,
        {
            let mut b_columns: Vec<Intersection> = Vec::new();
            let mut column: usize = 0;
            while column < board_size
                invariant
                    row < board_size,
                    column <= board_size,
                    b_columns@.len() == column,
                    forall|c: int|
                        0 <= c < column ==> #[trigger] b_columns@[c] == vacant_grid(board_size)[row as int][c],
                decreases board_size - column,
            {
                let next_intersection: Intersection = Intersection::new(row, column);
                b_columns.push(next_intersection);
                column = column + 1;
            }
            assert(b_columns@ =~= vacant_grid(board_size)[row as int]);
            b_rows.push(b_columns);
            row = row + 1;
        }
        assert(grid_of(b_rows@) =~= vacant_grid(board_size));
        b_rows
    }

    /// A vacant board with White to move and nothing captured.
    pub fn new(board_size: usize) -> (board: Self)
        requires
            board_size > 0,
            board_size * board_size <= usize::MAX,
        ensures
            board@ == (BoardView {
                board_size,
                grid: vacant_grid(board_size),
                white_captured: 0,
                black_captured: 0,
                is_white_turn: true,
            }),
            board.well_formed(),
            board.settled(),
    {
        let board = Board {
            board_size,
            board_state: Self::build_board_start(board_size),
            white_captured: 0,
            black_captured: 0,
            is_white_turn: true,
        };
        proof {
            let grid = vacant_grid(board_size);
            assert(cells_of_color(grid, board_size, WHITE_TERR) =~= Set::<Position>::empty());
            assert(cells_of_color(grid, board_size, BLACK_TERR) =~= Set::<Position>::empty());
        }
        board
    }

    /// Overwrites the colour of one intersection. Nothing is validated and
    /// no chain is touched.
    pub fn update_board_color(&mut self, row: usize, col: usize, color: u8)
        requires
            old(self).well_formed(),
            row < old(self).board_size,
            col < old(self).board_size,
        ensures
            final(self)@ == (BoardView {
                grid: with_color(old(self)@.grid, (row, col), color),
                ..old(self)@
            }),
            final(self).well_formed(),
    {
        proof {
            lemma_square_rows(self.board_state@, self.board_size);
        }
        self.board_state[row][col].player_color = color;
        assert(grid_of(self.board_state@) =~= with_color(old(self)@.grid, (row, col), color));
    }

    /// Whether the side that plays `player_color` is the one to move.
    pub fn is_turn_of(&self, player_color: u8) -> (to_move: bool)
        ensures
            to_move == (player_color == side_to_move(self.is_white_turn)),
    {
        if self.is_white_turn {
            player_color == WHITE
        } else {
            player_color == BLACK
        }
    }

    /// Hands the move to the other side.
    pub fn toggle_turn(&mut self)
        ensures
            final(self)@ == (BoardView { is_white_turn: !old(self).is_white_turn, ..old(self)@ }),
            final(self).board_state == old(self).board_state,
    {
        self.is_white_turn = !self.is_white_turn;
    }
}

/// The neighbours of (`row`, `col`) that hold `desired_color`, in the order
/// left, right, up, down. The board is only read.
pub fn get_adjacent(
    board_state: &mut [Vec<Intersection>],
    board_size: usize,
    row: usize,
    col: usize,
    desired_color: u8,
) -> (friends: Vec<(usize, usize)>)
    requires
        square(grid_of(old(board_state)@), board_size),
        row < board_size,
        col < board_size,
    ensures
        final(board_state)@ == old(board_state)@,
        friends@ == adjacent_of_color(grid_of(old(board_state)@), board_size, (row, col), desired_color),
{
    let ghost grid = grid_of(board_state@);
    proof {
        lemma_square_rows(board_state@, board_size);
    }
    let mut friends: Vec<(usize, usize)> = Vec::new();
    let intersection: Intersection = board_state[row][col];
    if intersection.col != 0 && board_state[intersection.row][intersection.col - 1].player_color
        == desired_color {
        friends.push((intersection.row, intersection.col - 1));
    }
    if intersection.col + 1 < board_size && board_state[intersection.row][intersection.col
        + 1].player_color == desired_color {
        friends.push((intersection.row, intersection.col + 1));
    }
    if intersection.row != 0 && board_state[intersection.row - 1][intersection.col].player_color
        == desired_color {
        friends.push((intersection.row - 1, intersection.col));
    }
    if intersection.row + 1 < board_size && board_state[intersection.row
        + 1][intersection.col].player_color == desired_color {
        friends.push((intersection.row + 1, intersection.col));
    }
    assert(friends@ =~= adjacent_of_color(grid, board_size, (row, col), desired_color));
    friends
}

/// Whether `p` occurs in `list`.
pub fn holds(list: &Vec<(usize, usize)>, p: (usize, usize)) -> (found: bool)
    ensures
        found == list@.contains(p),
{
    let mut i: usize = 0;
    while i < list.len()
        invariant
            i <= list.len(),
            forall|j: int| 0 <= j < i ==> list@[j] != p,
        decreases list.len() - i,
    {
        let q = list[i];
        if q.0 == p.0 && q.1 == p.1 {
            return true;
        }
        i = i + 1;
    }
    false
}

/// The liberties of one chain: the vacant neighbours of its members, each
/// listed once. The board is only read.
pub fn liberties_of_chain(
    board_state: &mut [Vec<Intersection>],
    board_size: usize,
    chain: &Vec<(usize, usize)>,
) -> (liberties: Vec<(usize, usize)>)
    requires
        square(grid_of(old(board_state)@), board_size),
        forall|i: int| 0 <= i < chain@.len() ==> on_board(board_size, #[trigger] chain@[i]),
    ensures
        final(board_state)@ == old(board_state)@,
        liberties@.no_duplicates(),
        liberties@.to_set() == liberty_set(grid_of(old(board_state)@), board_size, chain@),
{
    let ghost state = board_state@;
    let ghost grid = grid_of(state);
    let mut liberties: Vec<(usize, usize)> = Vec::new();
    assert(liberties@.to_set() =~= liberty_set(grid, board_size, chain@.take(0)));
    let mut j: usize = 0;
    while j < chain.len()
        invariant
            j <= chain.len(),
            board_state@ == state,
            grid == grid_of(state),
            square(grid, board_size),
            forall|i: int| 0 <= i < chain@.len() ==> on_board(board_size, #[trigger] chain@[i]),
            liberties@.no_duplicates(),
            liberties@.to_set() == liberty_set(grid, board_size, chain@.take(j as int)),
        decreases chain.len() - j,
    {
        let member = chain[j];
        let adjacent_empty = get_adjacent(board_state, board_size, member.0, member.1, EMPTY);
        let ghost seen = liberties@.to_set();
        let mut t: usize = 0;
        assert(liberties@.to_set() =~= seen + adjacent_empty@.take(0).to_set());
        while t < adjacent_empty.len()
            invariant
                t <= adjacent_empty.len(),
                liberties@.no_duplicates(),
                liberties@.to_set() == seen + adjacent_empty@.take(t as int).to_set(),
            decreases adjacent_empty.len() - t,
        {
            let empty_space = adjacent_empty[t];
            let ghost listed = liberties@;
            if !holds(&liberties, empty_space) {
                liberties.push(empty_space);
            }
            proof {
                let head = adjacent_empty@.take(t as int);
                let next = adjacent_empty@.take(t + 1);
                assert(next =~= head.push(empty_space));
                assert forall|q: Position|
                    liberties@.contains(q) <==> listed.contains(q) || q == empty_space by {
                    if listed.contains(q) {
                        let i = choose|i: int| 0 <= i < listed.len() && listed[i] == q;
                        assert(liberties@[i] == q);
                    }
                    if q == empty_space && !listed.contains(q) {
                        assert(liberties@[listed.len() as int] == q);
                    }
                }
                assert forall|q: Position| next.contains(q) <==> head.contains(q) || q
                    == empty_space by {
                    if head.contains(q) {
                        let i = choose|i: int| 0 <= i < head.len() && head[i] == q;
                        assert(next[i] == q);
                    }
                    if q == empty_space {
                        assert(next[t as int] == q);
                    }
                }
                assert forall|q: Position|
                    liberties@.to_set().contains(q) <==> (seen + next.to_set()).contains(q) by {
                    assert(listed.to_set().contains(q) <==> listed.contains(q));
                    assert((seen + head.to_set()).contains(q) <==> seen.contains(q)
                        || head.contains(q));
                }
                assert(liberties@.to_set() =~= seen + next.to_set());
            }
            t = t + 1;
        }
        proof {
            assert(adjacent_empty@.take(adjacent_empty@.len() as int) =~= adjacent_empty@);
            lemma_liberties_grow(grid, board_size, chain@, j as int);
        }
        j = j + 1;
    }
    assert(chain@.take(chain@.len() as int) =~= chain@);
    liberties
}

/// Recomputes, for every chain of `player_model`, its liberties on the
/// board as it stands. Neither the board nor the registry is changed; the
/// caller decides what to do with the result.
pub fn update_player_liberties(
    board_state: &mut [Vec<Intersection>],
    board_size: usize,
    player_model: &mut PlayerModel,
) -> (player_liberties: HashMap<u128, Vec<(usize, usize)>>)
    requires
        square(grid_of(old(board_state)@), board_size),
        old(player_model).fits(board_size),
    ensures
        final(board_state)@ == old(board_state)@,
        *final(player_model) == *old(player_model),
        sets_of(lists_of(player_liberties@)) == liberties_on(
            grid_of(old(board_state)@),
            board_size,
            old(player_model).chains(),
        ),
        forall|k: u128| #[trigger]
            player_liberties@.contains_key(k) ==> player_liberties@[k]@.no_duplicates(),
{
    let ghost state = board_state@;
    let ghost grid = grid_of(state);
    let ghost chains = player_model.chains();
    let mut player_liberties: HashMap<u128, Vec<(usize, usize)>> = HashMap::new();
    let ghost all: Seq<u128> = player_model.player_chains.keys().remaining().unref();
    assert(all.to_set() == player_model.player_chains@.dom());
    for chain_key in it: player_model.player_chains.keys()
        invariant
            it.seq().unref() == all,
            all.to_set() == player_model.player_chains@.dom(),
            chains == player_model.chains(),
            player_model.fits(board_size),
            board_state@ == state,
            grid == grid_of(state),
            square(grid, board_size),
            forall|k: u128|
                player_liberties@.contains_key(k) <==> all.take(it.index()).contains(k),
            forall|k: u128| #[trigger]
                player_liberties@.contains_key(k) ==> player_liberties@[k]@.no_duplicates()
                    && player_liberties@[k]@.to_set() == liberty_set(grid, board_size, chains[k]),
    {
        let ghost done = player_liberties@;
        assert(all[it.index()] == *chain_key);
        assert(all.to_set().contains(*chain_key));
        if let Some(chain) = player_model.player_chains.get(chain_key) {
            assert(chain@ == chains[*chain_key]);
            assert forall|i: int| 0 <= i < chain@.len() implies on_board(
                board_size,
                #[trigger] chain@[i],
            ) by {
                assert(on_board(board_size, player_model.chains()[*chain_key][i]));
            }
            let liberties_for_chain = liberties_of_chain(board_state, board_size, chain);
            player_liberties.insert(*chain_key, liberties_for_chain);
        }
        proof {
            let head = all.take(it.index());
            let next = all.take(it.index() + 1);
            assert(next =~= head.push(*chain_key));
            assert forall|k: u128| player_liberties@.contains_key(k) <==> next.contains(k) by {
                if head.contains(k) {
                    let i = choose|i: int| 0 <= i < head.len() && head[i] == k;
                    assert(next[i] == k);
                }
                if k == *chain_key {
                    assert(next[it.index()] == k);
                }
            }
        }
    }
    proof {
        assert(all.take(all.len() as int) =~= all);
        assert(sets_of(lists_of(player_liberties@)) =~= liberties_on(grid, board_size, chains));
    }
    player_liberties
}

/// Whether a stone of the side to move, placed at (`row`, `col`), would form
/// a group without a liberty. The group looked at is the stone and its
/// direct neighbours of the same colour, on the board as it stands before
/// any capture. The stone is put down for the test and taken up again.
pub fn check_for_self_capture(board: &mut Board, row: usize, col: usize) -> (no_liberty: bool)
    requires
        old(board).well_formed(),
        row < old(board).board_size,
        col < old(board).board_size,
    ensures
        final(board)@ == old(board)@,
        no_liberty == self_capture(
            old(board)@.grid,
            old(board).board_size,
            (row, col),
            side_to_move(old(board).is_white_turn),
        ),
{
    let ghost before = board@;
    let ghost grid = board@.grid;
    let ghost n = board.board_size;
    proof {
        lemma_square_rows(board.board_state@, board.board_size);
    }
    let previous_color = board.board_state[row][col].player_color;
    assert(previous_color == grid[row as int][col as int].player_color);
    let current_player_color = if board.is_white_turn {
        WHITE
    } else {
        BLACK
    };
    board.board_state[row][col].player_color = current_player_color;
    let ghost placed = with_color(grid, (row, col), current_player_color);
    assert(grid_of(board.board_state@) =~~= placed);

    let mut temp_chain: Vec<(usize, usize)> = Vec::new();
    temp_chain.push((row, col));
    let mut friends = get_adjacent(
        &mut board.board_state,
        board.board_size,
        row,
        col,
        current_player_color,
    );
    temp_chain.append(&mut friends);
    assert(temp_chain@ =~= candidate_group(grid, n, (row, col), current_player_color));
    proof {
        lemma_adjacent_of_color(placed, n, (row, col), current_player_color);
    }
    assert forall|i: int| 0 <= i < temp_chain@.len() implies on_board(n, #[trigger] temp_chain@[i]) by {
        if i > 0 {
            assert(adjacent_of_color(placed, n, (row, col), current_player_color).contains(
                temp_chain@[i],
            ));
        }
    }

    let mut has_liberties = false;
    let mut i: usize = 0;
    while i < temp_chain.len() && !has_liberties
        invariant
            i <= temp_chain.len(),
            n == board.board_size,
            board@ == (BoardView { grid: placed, ..before }),
            square(placed, n),
            forall|j: int| 0 <= j < temp_chain@.len() ==> on_board(n, #[trigger] temp_chain@[j]),
            has_liberties ==> has_liberty(placed, n, temp_chain@),
            !has_liberties ==> forall|j: int|
                0 <= j < i ==> adjacent_of_color(placed, n, #[trigger] temp_chain@[j], EMPTY).len()
                    == 0,
        decreases temp_chain.len() - i,
    {
        let stone = temp_chain[i];
        let empty_adjacent = get_adjacent(
            &mut board.board_state,
            board.board_size,
            stone.0,
            stone.1,
            EMPTY,
        );
        if !empty_adjacent.is_empty() {
            has_liberties = true;
            proof {
                let q = empty_adjacent@[0];
                lemma_adjacent_of_color(placed, n, stone, EMPTY);
                assert(adjacent_of_color(placed, n, stone, EMPTY).contains(q));
                assert(adjacent(temp_chain@[i as int], q));
                assert(is_liberty(placed, n, temp_chain@, q));
            }
        }
        i = i + 1;
    }
    proof {
        if !has_liberties {
            assert forall|q: Position| !is_liberty(placed, n, temp_chain@, q) by {
                if is_liberty(placed, n, temp_chain@, q) {
                    let j = choose|j: int|
                        0 <= j < temp_chain@.len() && #[trigger] adjacent(temp_chain@[j], q);
                    lemma_adjacent_of_color(placed, n, temp_chain@[j], EMPTY);
                    assert(adjacent_of_color(placed, n, temp_chain@[j], EMPTY).contains(q));
                }
            }
        }
    }

    proof {
        lemma_square_rows(board.board_state@, board.board_size);
    }
    board.board_state[row][col].player_color = previous_color;
    proof {
        lemma_with_color_restores(grid, n, (row, col), current_player_color);
        assert(grid_of(board.board_state@) =~~= with_color(placed, (row, col), previous_color));
    }
    !has_liberties
}

/// Folds the chains of the stones in `friends` into the chain that the
/// stone at (`row`, `col`) starts. Each chain is taken out of the registry
/// together with its cached liberties, its members are relabelled with the
/// identifier of the new stone, and they are appended, chain after chain in
/// the order of `friends`, behind the new stone. The result is not yet
/// registered.
pub fn update_chain(
    board_state: &mut [Vec<Intersection>],
    player_model: &mut PlayerModel,
    friends: Vec<(usize, usize)>,
    row: usize,
    col: usize,
) -> (new_friend_chain: Vec<(usize, usize)>)
    requires
        square(grid_of(old(board_state)@), old(board_state)@.len() as usize),
        row < old(board_state)@.len(),
        col < old(board_state)@.len(),
        forall|i: int|
            0 <= i < friends@.len() ==> on_board(
                old(board_state)@.len() as usize,
                #[trigger] friends@[i],
            ),
        chains_labelled(
            grid_of(old(board_state)@),
            old(board_state)@.len() as usize,
            old(player_model).chains(),
        ),
        !old(player_model).chains().contains_key(chain_at(grid_of(old(board_state)@), (row, col))),
        !old(player_model).liberty_lists().contains_key(
            chain_at(grid_of(old(board_state)@), (row, col)),
        ),
    ensures
        new_friend_chain@ == seq![(row, col)] + merged_members(
            old(player_model).chains(),
            labels_of(grid_of(old(board_state)@), friends@),
        ),
        final(player_model).chains() == old(player_model).chains().remove_keys(
            labels_of(grid_of(old(board_state)@), friends@).to_set(),
        ),
        final(player_model).liberty_lists() == old(player_model).liberty_lists().remove_keys(
            labels_of(grid_of(old(board_state)@), friends@).to_set(),
        ),
        final(player_model).player == old(player_model).player,
        grid_of(final(board_state)@) == relabelled(
            grid_of(old(board_state)@),
            merged_members(
                old(player_model).chains(),
                labels_of(grid_of(old(board_state)@), friends@),
            ).to_set(),
            chain_at(grid_of(old(board_state)@), (row, col)),
        ),
{
    let ghost grid0 = grid_of(board_state@);
    let ghost n = board_state@.len() as usize;
    let ghost chains0 = player_model.chains();
    let ghost libs0 = player_model.liberty_lists();
    let ghost ids = labels_of(grid0, friends@);
    let ghost new_id = chain_at(grid0, (row, col));
    let ghost stone: Position = (row, col);

    let mut new_friend_chain: Vec<(usize, usize)> = Vec::new();
    new_friend_chain.push((row, col));
    proof {
        assert(ids.take(0) =~= Seq::<u128>::empty());
        assert(merged_members(chains0, ids.take(0)) =~= Seq::<Position>::empty());
        assert(new_friend_chain@ =~= seq![stone] + merged_members(chains0, ids.take(0)));
        assert(player_model.chains() =~= chains0.remove_keys(ids.take(0).to_set()));
        assert(player_model.liberty_lists() =~= libs0.remove_keys(ids.take(0).to_set()));
        assert(grid0 =~~= relabelled(grid0, merged_members(chains0, ids.take(0)).to_set(), new_id));
    }
    let mut i: usize = 0;
    while i < friends.len()
        invariant
            i <= friends.len(),
            n == board_state@.len(),
            row < n,
            col < n,
            stone == (row, col),
            square(grid0, n),
            ids == labels_of(grid0, friends@),
            new_id == chain_at(grid0, stone),
            forall|j: int| 0 <= j < friends@.len() ==> on_board(n, #[trigger] friends@[j]),
            chains_labelled(grid0, n, chains0),
            !chains0.contains_key(new_id),
            !libs0.contains_key(new_id),
            grid_of(board_state@) == relabelled(
                grid0,
                merged_members(chains0, ids.take(i as int)).to_set(),
                new_id,
            ),
            new_friend_chain@ == seq![stone] + merged_members(chains0, ids.take(i as int)),
            player_model.chains() == chains0.remove_keys(ids.take(i as int).to_set()),
            player_model.liberty_lists() == libs0.remove_keys(ids.take(i as int).to_set()),
            player_model.player == old(player_model).player,
        decreases friends.len() - i,
    {
        let ghost earlier = ids.take(i as int);
        let ghost merged = merged_members(chains0, earlier);
        let ghost grid_i = grid_of(board_state@);
        let friend = friends[i];
        proof {
            lemma_relabelled_square(grid0, n, merged.to_set(), new_id);
            lemma_square_rows(board_state@, n);
            assert(ids.take(i + 1) =~= earlier.push(ids[i as int]));
            assert(ids.take(i + 1).drop_last() =~= earlier);
            earlier.lemma_push_to_set_commute(ids[i as int]);
            lemma_merged_members(chains0, earlier, friend);
        }
        let friend_chain_id: u128 = board_state[friend.0][friend.1].chain_id;
        assert(friend_chain_id == grid_i[friend.0 as int][friend.1 as int].chain_id);
        proof {
            if merged.to_set().contains(friend) {
                let j = choose|j: int|
                    0 <= j < earlier.len() && chains0.contains_key(#[trigger] earlier[j])
                        && chains0[earlier[j]].contains(friend);
                let t = choose|t: int|
                    0 <= t < chains0[earlier[j]].len() && chains0[earlier[j]][t] == friend;
                assert(chain_at(grid0, chains0[earlier[j]][t]) == earlier[j]);
                assert(ids[i as int] == earlier[j]);
                assert(earlier.contains(ids[i as int]));
                assert(friend_chain_id == new_id);
            } else {
                assert(friend_chain_id == ids[i as int]);
            }
        }
        let friend_chain = player_model.remove_player_chain(friend_chain_id);
        player_model.remove_player_liberties(friend_chain_id);
        proof {
            assert(player_model.chains() =~= chains0.remove_keys(ids.take(i + 1).to_set()));
            assert(player_model.liberty_lists() =~= libs0.remove_keys(ids.take(i + 1).to_set()));
        }
        if let Some((_, members)) = friend_chain {
            assert(friend_chain_id == ids[i as int]);
            assert(chains0.contains_key(ids[i as int]) && !earlier.contains(ids[i as int]));
            let ghost key = ids[i as int];
            assert(members@ == chains0[key]);
            assert(merged_members(chains0, ids.take(i + 1)) == merged + members@);
            let mut j: usize = 0;
            proof {
                assert(members@.take(0) =~= Seq::<Position>::empty());
                assert(merged + members@.take(0) =~= merged);
            }
            while j < members.len()
                invariant
                    j <= members.len(),
                    n == board_state@.len(),
                    row < n,
                    col < n,
                    stone == (row, col),
                    square(grid0, n),
                    new_id == chain_at(grid0, stone),
                    chains_labelled(grid0, n, chains0),
                    !chains0.contains_key(new_id),
                    chains0.contains_key(key),
                    members@ == chains0[key],
                    grid_of(board_state@) == relabelled(
                        grid0,
                        (merged + members@.take(j as int)).to_set(),
                        new_id,
                    ),
                    new_friend_chain@ == seq![stone] + (merged + members@.take(j as int)),
                decreases members.len() - j,
            {
                let (friend_row, friend_col) = members[j];
                let ghost done = merged + members@.take(j as int);
                proof {
                    lemma_relabelled_square(grid0, n, done.to_set(), new_id);
                    lemma_square_rows(board_state@, n);
                    assert(on_board(n, chains0[key][j as int]));
                    assert(grid0[row as int].len() == n);
                    assert(grid_of(board_state@)[row as int][col as int].chain_id == new_id);
                }
                let label: u128 = board_state[row][col].chain_id;
                assert(label == new_id);
                board_state[friend_row][friend_col].chain_id = label;
                new_friend_chain.push((friend_row, friend_col));
                proof {
                    let next = merged + members@.take(j + 1);
                    assert(next =~= done.push((friend_row, friend_col)));
                    done.lemma_push_to_set_commute((friend_row, friend_col));
                    lemma_relabel_one_more(grid0, n, done.to_set(), (friend_row, friend_col), new_id);
                    assert(grid_of(board_state@) =~~= with_label(
                        relabelled(grid0, done.to_set(), new_id),
                        (friend_row, friend_col),
                        new_id,
                    ));
                    assert(new_friend_chain@ =~= seq![stone] + next);
                }
                j = j + 1;
            }
            assert(members@.take(members@.len() as int) =~= members@);
        } else {
            assert(merged_members(chains0, ids.take(i + 1)) =~= merged);
        }
        i = i + 1;
    }
    assert(ids.take(ids.len() as int) =~= ids);
    new_friend_chain
}

/// Captures every chain of `player_model` whose cached liberty list is
/// empty: each of its stones becomes the territory marker of the other
/// side. Returns the keys of the captured chains, each once, in no
/// particular order. The registry itself is left as it is.
pub fn check_for_conquered(
    player_model: &mut PlayerModel,
    board_state: &mut [Vec<Intersection>],
) -> (removed_chain_keys: Vec<u128>)
    requires
        square(grid_of(old(board_state)@), old(board_state)@.len() as usize),
        old(player_model).fits(old(board_state)@.len() as usize),
    ensures
        *final(player_model) == *old(player_model),
        removed_chain_keys@.no_duplicates(),
        removed_chain_keys@.to_set() == doomed(
            old(player_model).chains(),
            old(player_model).liberty_lists(),
        ),
        grid_of(final(board_state)@) == marked(
            grid_of(old(board_state)@),
            members_of(
                old(player_model).chains(),
                doomed(old(player_model).chains(), old(player_model).liberty_lists()),
            ),
        ),
{
    let ghost grid0 = grid_of(board_state@);
    let ghost n = board_state@.len() as usize;
    let ghost chains = player_model.chains();
    let ghost libs = player_model.liberty_lists();
    let mut removed_chain_keys: Vec<u128> = Vec::new();
    let ghost all: Seq<u128> = player_model.player_liberties.keys().remaining().unref();
    assert(all.to_set() == player_model.player_liberties@.dom());
    assert(all.no_duplicates()) by {
        assert forall|i: int, j: int| 0 <= i < j < all.len() implies all[i] != all[j] by {
            assert(player_model.player_liberties.keys().remaining()[i]
                != player_model.player_liberties.keys().remaining()[j]);
        }
    }
    proof {
        assert(members_of(chains, removed_chain_keys@.to_set()) =~= Set::<Position>::empty());
        assert(grid0 =~~= marked(grid0, Set::<Position>::empty()));
    }
    for chain_key in it: player_model.player_liberties.keys()
        invariant
            it.seq().unref() == all,
            all.no_duplicates(),
            all.to_set() == player_model.player_liberties@.dom(),
            chains == player_model.chains(),
            libs == player_model.liberty_lists(),
            *player_model == *old(player_model),
            player_model.fits(n),
            n == board_state@.len(),
            square(grid0, n),
            removed_chain_keys@.no_duplicates(),
            forall|k: u128|
                removed_chain_keys@.contains(k) <==> all.take(it.index()).contains(k) && is_doomed(
                    chains,
                    libs,
                    k,
                ),
            grid_of(board_state@) == marked(
                grid0,
                members_of(chains, removed_chain_keys@.to_set()),
            ),
    {
        let ghost head = all.take(it.index());
        let ghost key = *chain_key;
        let ghost listed = removed_chain_keys@;
        let ghost gone = members_of(chains, listed.to_set());
        proof {
            assert(all[it.index()] == key);
            assert(all.to_set().contains(key));
            assert(all.take(it.index() + 1) =~= head.push(key));
            assert(!head.contains(key));
        }
        if let Some(liberties) = player_model.player_liberties.get(chain_key) {
            assert(liberties@ == libs[key]);
            if liberties.is_empty() {
                if let Some(captured_chain) = player_model.player_chains.get(chain_key) {
                    assert(captured_chain@ == chains[key]);
                    assert(is_doomed(chains, libs, key));
                    let mut j: usize = 0;
                    proof {
                        assert(captured_chain@.take(0) =~= Seq::<Position>::empty());
                        assert(gone + captured_chain@.take(0).to_set() =~= gone);
                    }
                    while j < captured_chain.len()
                        invariant
                            j <= captured_chain.len(),
                            n == board_state@.len(),
                            square(grid0, n),
                            chains.contains_key(key),
                            captured_chain@ == chains[key],
                            forall|i: int|
                                0 <= i < captured_chain@.len() ==> on_board(
                                    n,
                                    #[trigger] captured_chain@[i],
                                ),
                            grid_of(board_state@) == marked(
                                grid0,
                                gone + captured_chain@.take(j as int).to_set(),
                            ),
                        decreases captured_chain.len() - j,
                    {
                        let captured_location = captured_chain[j];
                        let ghost done = gone + captured_chain@.take(j as int).to_set();
                        let ghost was = grid_of(board_state@);
                        proof {
                            lemma_marked_square(grid0, n, done);
                            lemma_square_rows(board_state@, n);
                        }
                        if board_state[captured_location.0][captured_location.1].player_color
                            == WHITE {
                            board_state[captured_location.0][captured_location.1].player_color =
                                BLACK_TERR;
                        } else if board_state[captured_location.0][captured_location.1].player_color
                            == BLACK {
                            board_state[captured_location.0][captured_location.1].player_color =
                                WHITE_TERR;
                        }
                        proof {
                            assert(captured_chain@.take(j + 1) =~= captured_chain@.take(
                                j as int,
                            ).push(captured_location));
                            captured_chain@.take(j as int).lemma_push_to_set_commute(
                                captured_location,
                            );
                            assert(gone + captured_chain@.take(j + 1).to_set() =~= done.insert(
                                captured_location,
                            ));
                            lemma_mark_one_more(grid0, n, done, captured_location);
                            assert(grid_of(board_state@) =~~= with_color(
                                was,
                                captured_location,
                                captured_marker(color_at(was, captured_location)),
                            ));
                        }
                        j = j + 1;
                    }
                    removed_chain_keys.push(*chain_key);
                    proof {
                        assert(captured_chain@.take(captured_chain@.len() as int)
                            =~= captured_chain@);
                        listed.lemma_push_to_set_commute(key);
                        lemma_members_of_insert(chains, listed.to_set(), key);
                        assert(!listed.contains(key));
                    }
                }
            }
        }
        proof {
            let next = all.take(it.index() + 1);
            assert forall|k: u128|
                removed_chain_keys@.contains(k) <==> next.contains(k) && is_doomed(
                    chains,
                    libs,
                    k,
                ) by {
                if head.contains(k) {
                    let i = choose|i: int| 0 <= i < head.len() && head[i] == k;
                    assert(next[i] == k);
                }
                if k == key {
                    assert(next[it.index()] == k);
                }
                if listed.contains(k) {
                    let i = choose|i: int| 0 <= i < listed.len() && listed[i] == k;
                    assert(removed_chain_keys@[i] == k);
                }
                if removed_chain_keys@.contains(k) && !listed.contains(k) {
                    assert(k == key);
                }
                if removed_chain_keys@.len() > listed.len() {
                    assert(removed_chain_keys@[listed.len() as int] == key);
                }
            }
        }
    }
    proof {
        assert(all.take(all.len() as int) =~= all);
        assert(removed_chain_keys@.to_set() =~= doomed(chains, libs));
    }
    removed_chain_keys
}

/// Takes the chains under `removed_chain_keys` out of the registry,
/// together with their cached liberties.
pub fn cleanup_captured(player_model: &mut PlayerModel, removed_chain_keys: Vec<u128>)
    ensures
        final(player_model).chains() == old(player_model).chains().remove_keys(
            removed_chain_keys@.to_set(),
        ),
        final(player_model).liberty_lists() == old(player_model).liberty_lists().remove_keys(
            removed_chain_keys@.to_set(),
        ),
        final(player_model).player == old(player_model).player,
{
    let ghost chains = player_model.chains();
    let ghost libs = player_model.liberty_lists();
    let mut i: usize = 0;
    proof {
        assert(removed_chain_keys@.take(0) =~= Seq::<u128>::empty());
        assert(chains =~= chains.remove_keys(removed_chain_keys@.take(0).to_set()));
        assert(libs =~= libs.remove_keys(removed_chain_keys@.take(0).to_set()));
    }
    while i < removed_chain_keys.len()
        invariant
            i <= removed_chain_keys.len(),
            player_model.chains() == chains.remove_keys(
                removed_chain_keys@.take(i as int).to_set(),
            ),
            player_model.liberty_lists() == libs.remove_keys(
                removed_chain_keys@.take(i as int).to_set(),
            ),
            player_model.player == old(player_model).player,
        decreases removed_chain_keys.len() - i,
    {
        let chain_key = removed_chain_keys[i];
        player_model.remove_player_chain(chain_key);
        player_model.remove_player_liberties(chain_key);
        proof {
            let head = removed_chain_keys@.take(i as int);
            assert(removed_chain_keys@.take(i + 1) =~= head.push(chain_key));
            head.lemma_push_to_set_commute(chain_key);
            assert(player_model.chains() =~= chains.remove_keys(
                removed_chain_keys@.take(i + 1).to_set(),
            ));
            assert(player_model.liberty_lists() =~= libs.remove_keys(
                removed_chain_keys@.take(i + 1).to_set(),
            ));
        }
        i = i + 1;
    }
    assert(removed_chain_keys@.take(removed_chain_keys@.len() as int) =~= removed_chain_keys@);
}

/// The board and the registries of the two sides describe one position.
pub open spec fn consistent(board: &Board, one: &PlayerModel, other: &PlayerModel) -> bool {
    &&& board.well_formed()
    &&& board.settled()
    &&& one.sound_on(board)
    &&& other.sound_on(board)
    &&& one.player.player_color != other.player.player_color
}

/// The board after the side that plays `color` has put a stone at `p`:
/// the stone and the chains it joins are one chain, the opponent's chains
/// that are left without a liberty are captured and counted, and the turn
/// passes.
pub open spec fn board_after(
    board: BoardView,
    mover_chains: Map<u128, Seq<Position>>,
    opponent_chains: Map<u128, Seq<Position>>,
    p: Position,
    color: u8,
) -> BoardView {
    let n = board.board_size;
    let merged = grid_after_merge(board.grid, n, mover_chains, p, color);
    let taken = members_of(opponent_chains, smothered(merged, n, opponent_chains)).len();
    BoardView {
        board_size: n,
        grid: grid_after_capture(merged, n, opponent_chains),
        white_captured: if color == WHITE {
            (board.white_captured + taken) as usize
        } else {
            board.white_captured
        },
        black_captured: if color == WHITE {
            board.black_captured
        } else {
            (board.black_captured + taken) as usize
        },
        is_white_turn: !board.is_white_turn,
    }
}

/// The mover's registry after the placement.
pub open spec fn mover_after(
    board: BoardView,
    mover: &PlayerModel,
    p: Position,
) -> PlayerModelView {
    let n = board.board_size;
    let color = mover.player.player_color;
    let gone = friend_ids(board.grid, n, p, color).to_set();
    PlayerModelView {
        chains: chains_after_merge(board.grid, n, mover.chains(), p, color),
        liberties: sets_of(mover.liberty_lists().remove_keys(gone)),
        player: mover.player,
    }
}

/// The opponent's registry after the placement: the chains that still have
/// a liberty, each with its liberties on the board as the placement left it.
pub open spec fn opponent_after(
    board: BoardView,
    mover: &PlayerModel,
    opponent: &PlayerModel,
    p: Position,
) -> PlayerModelView {
    let n = board.board_size;
    let merged = grid_after_merge(board.grid, n, mover.chains(), p, mover.player.player_color);
    let gone = smothered(merged, n, opponent.chains());
    PlayerModelView {
        chains: opponent.chains().remove_keys(gone),
        liberties: liberties_on(merged, n, opponent.chains()).remove_keys(gone),
        player: opponent.player,
    }
}

/// The number of stones in the chains under `keys`.
fn stones_in(
    player_model: &PlayerModel,
    keys: &Vec<u128>,
    Ghost(grid): Ghost<Grid>,
    Ghost(n): Ghost<usize>,
) -> (total: usize)
    requires
        n * n <= usize::MAX,
        chains_tracked(grid, n, player_model.chains(), player_model.player.player_color),
        keys@.no_duplicates(),
    ensures
        total == members_of(player_model.chains(), keys@.to_set()).len(),
{
    let ghost chains = player_model.chains();
    let ghost color = player_model.player.player_color;
    let mut total: usize = 0;
    let mut i: usize = 0;
    proof {
        assert(keys@.take(0) =~= Seq::<u128>::empty());
        assert(members_of(chains, keys@.take(0).to_set()) =~= Set::<Position>::empty());
    }
    while i < keys.len()
        invariant
            i <= keys.len(),
            n * n <= usize::MAX,
            chains == player_model.chains(),
            chains_tracked(grid, n, chains, color),
            keys@.no_duplicates(),
            total == members_of(chains, keys@.take(i as int).to_set()).len(),
        decreases keys.len() - i,
    {
        let key = keys[i];
        let ghost head = keys@.take(i as int);
        let ghost counted = members_of(chains, head.to_set());
        proof {
            assert(keys@.take(i + 1) =~= head.push(key));
            head.lemma_push_to_set_commute(key);
            lemma_members_tracked(grid, n, chains, color, head.to_set());
            lemma_members_tracked(grid, n, chains, color, keys@.take(i + 1).to_set());
        }
        if let Some(chain) = player_model.player_chains.get(&key) {
            proof {
                assert(chain@ == chains[key]);
                lemma_members_of_insert(chains, head.to_set(), key);
                assert(player_model.player_chains@.contains_key(key));
                assert(chains.contains_key(key));
                assert(chain_tracked(grid, n, key, chains[key], color));
                chain@.unique_seq_to_set();
                vstd::seq_lib::seq_to_set_is_finite(chain@);
                assert(counted.disjoint(chain@.to_set())) by {
                    assert forall|p: Position| counted.contains(p) && chain@.to_set().contains(
                        p,
                    ) implies false by {
                        let w = choose|w: u128|
                            head.to_set().contains(w) && chains.contains_key(w)
                                && #[trigger] chains[w].contains(p);
                        lemma_chains_apart(grid, n, chains, color, w, key, p);
                        let t = choose|t: int| 0 <= t < head.len() && head[t] == w;
                        assert(keys@[t] == keys@[i as int]);
                    }
                }
                vstd::set_lib::lemma_set_disjoint_lens(counted, chain@.to_set());
            }
            total = total + chain.len();
        } else {
            proof {
                assert(members_of(chains, keys@.take(i + 1).to_set()) =~= counted) by {
                    assert forall|p: Position|
                        in_chains(chains, keys@.take(i + 1).to_set(), p) implies in_chains(
                        chains,
                        head.to_set(),
                        p,
                    ) by {
                        let w = choose|w: u128|
                            keys@.take(i + 1).to_set().contains(w) && chains.contains_key(w)
                                && #[trigger] chains[w].contains(p);
                        assert(head.to_set().contains(w));
                    }
                    assert forall|p: Position|
                        in_chains(chains, head.to_set(), p) implies in_chains(
                        chains,
                        keys@.take(i + 1).to_set(),
                        p,
                    ) by {
                        let w = choose|w: u128|
                            head.to_set().contains(w) && chains.contains_key(w)
                                && #[trigger] chains[w].contains(p);
                        assert(keys@.take(i + 1).to_set().contains(w));
                    }
                }
            }
        }
        i = i + 1;
    }
    assert(keys@.take(keys@.len() as int) =~= keys@);
    total
}

/// Puts a stone of the side of `player_model` at (`row`, `col`) and
/// resolves what follows from it. The move is refused, and nothing is
/// changed, unless it is that side's turn, the intersection is vacant and
/// the stone would have a liberty. Otherwise the stone joins the chains of
/// its neighbours, the opponent's liberties are computed afresh, the
/// opponent's chains without a liberty are captured and counted, and the
/// turn passes.
pub fn place_stone(
    board: &mut Board,
    player_model: &mut PlayerModel,
    opponent_model: &mut PlayerModel,
    row: usize,
    col: usize,
) -> (placed: bool)
    requires
        consistent(old(board), old(player_model), old(opponent_model)),
        row < old(board).board_size,
        col < old(board).board_size,
    ensures
        placed == legal_move(
            old(board)@.grid,
            old(board).board_size,
            old(board).is_white_turn,
            old(player_model).player.player_color,
            (row, col),
        ),
        !placed ==> final(board)@ == old(board)@ && *final(player_model) == *old(player_model)
            && *final(opponent_model) == *old(opponent_model),
        placed ==> final(board)@ == board_after(
            old(board)@,
            old(player_model).chains(),
            old(opponent_model).chains(),
            (row, col),
            old(player_model).player.player_color,
        ),
        placed ==> final(player_model)@ == mover_after(old(board)@, old(player_model), (row, col)),
        placed ==> final(player_model).liberty_lists() == old(
            player_model,
        ).liberty_lists().remove_keys(
            friend_ids(
                old(board)@.grid,
                old(board).board_size,
                (row, col),
                old(player_model).player.player_color,
            ).to_set(),
        ),
        placed ==> final(opponent_model)@ == opponent_after(
            old(board)@,
            old(player_model),
            old(opponent_model),
            (row, col),
        ),
        consistent(final(board), final(player_model), final(opponent_model)),
{
    let ghost start = board@;
    let ghost grid = board@.grid;
    let ghost n = board.board_size;
    let ghost p: Position = (row, col);
    let ghost mover_chains = player_model.chains();
    let ghost mover_cache = player_model.liberty_lists();
    let ghost opponent_chains = opponent_model.chains();
    let color = player_model.player.player_color;
    let ghost enemy = opponent_model.player.player_color;
    if !board.is_turn_of(color) {
        return false;
    }
    proof {
        lemma_square_rows(board.board_state@, board.board_size);
    }
    if board.board_state[row][col].player_color == EMPTY {
        assert(color_at(grid, p) == EMPTY);
        if check_for_self_capture(board, row, col) {
            return false;
        }
        board.update_board_color(row, col, color);
        let ghost stoned = with_color(grid, p, color);
        let ghost new_id = id_of(row, col);
        proof {
            lemma_with_color(grid, n, p, color);
            lemma_with_color_neighbours(grid, n, p, color, color);
            lemma_adjacent_of_color(grid, n, p, color);
            assert(chain_at(grid, p) == new_id);
            assert(chain_at(stoned, p) == new_id);
            assert forall|k: u128, i: int|
                #![trigger mover_chains[k][i]]
                mover_chains.contains_key(k) && 0 <= i < mover_chains[k].len() implies on_board(
                n,
                mover_chains[k][i],
            ) && chain_at(stoned, mover_chains[k][i]) == k by {
                assert(chain_tracked(grid, n, k, mover_chains[k], color));
            }
            if mover_chains.contains_key(new_id) {
                assert(chain_tracked(grid, n, new_id, mover_chains[new_id], color));
                let first = mover_chains[new_id][0];
                lemma_id_of_injective(first, p);
            }
            assert forall|k: u128, i: int|
                #![trigger opponent_chains[k][i]]
                opponent_chains.contains_key(k) && 0 <= i < opponent_chains[k].len() implies on_board(
                n,
                opponent_chains[k][i],
            ) by {
                assert(chain_tracked(grid, n, k, opponent_chains[k], enemy));
            }
        }
        let friends = get_adjacent(&mut board.board_state, board.board_size, row, col, color);
        proof {
            assert forall|i: int| 0 <= i < friends@.len() implies on_board(
                n,
                #[trigger] friends@[i],
            ) by {
                assert(friends@.contains(friends@[i]));
            }
        }
        let new_friend_chain = update_chain(
            &mut board.board_state,
            player_model,
            friends,
            row,
            col,
        );
        let ghost merged = grid_after_merge(grid, n, mover_chains, p, color);
        assert(grid_of(board.board_state@) == merged);
        player_model.add_player_chain(Board::generate_id(row, col), new_friend_chain);
        proof {
            lemma_relabelled_square(
                stoned,
                n,
                joined(grid, n, mover_chains, p, color).to_set(),
                new_id,
            );
            assert(player_model.chains() =~= chains_after_merge(grid, n, mover_chains, p, color));
        }
        let opponent_liberties = update_player_liberties(
            &mut board.board_state,
            board.board_size,
            opponent_model,
        );
        opponent_model.set_player_liberties(opponent_liberties);
        let ghost fresh = opponent_model.liberty_lists();
        let ghost gone = smothered(merged, n, opponent_chains);
        proof {
            assert(sets_of(fresh) == liberties_on(merged, n, opponent_chains));
            assert forall|k: u128| is_doomed(opponent_chains, fresh, k) <==> gone.contains(k) by {
                if opponent_chains.contains_key(k) {
                    assert(sets_of(fresh).contains_key(k));
                    assert(fresh.contains_key(k));
                    assert(sets_of(fresh)[k] == liberty_set(merged, n, opponent_chains[k]));
                    lemma_has_liberty(merged, n, opponent_chains[k]);
                    if fresh[k].len() == 0 {
                        assert(fresh[k].to_set() =~= Set::<Position>::empty());
                    } else {
                        assert(fresh[k].to_set().contains(fresh[k][0]));
                    }
                }
            }
            assert(doomed(opponent_chains, fresh) =~= gone);
        }
        let removed_chain_keys = check_for_conquered(opponent_model, &mut board.board_state);
        proof {
            lemma_tracked_after_merge(grid, n, mover_chains, opponent_chains, p, color, enemy);
            lemma_members_tracked(merged, n, opponent_chains, enemy, gone);
            lemma_capture_tally(merged, n, members_of(opponent_chains, gone), enemy);
            lemma_markers_after_merge(grid, n, mover_chains, p, color);
        }
        let taken = stones_in(opponent_model, &removed_chain_keys, Ghost(merged), Ghost(n));
        cleanup_captured(opponent_model, removed_chain_keys);
        proof {
            let stones = members_of(opponent_chains, gone);
            let mine = cells_of_color(merged, n, captured_marker(enemy));
            lemma_on_board_bound(n, mine + stones);
            vstd::set_lib::lemma_len_subset(mine, mine + stones);
            vstd::set_lib::lemma_set_disjoint_lens(mine, stones);
        }
        if color == WHITE {
            board.white_captured = board.white_captured + taken;
        } else {
            board.black_captured = board.black_captured + taken;
        }
        board.toggle_turn();
        proof {
            assert(opponent_model@.liberties =~= liberties_on(
                merged,
                n,
                opponent_chains,
            ).remove_keys(gone));
            assert(player_model@.liberties =~= sets_of(
                mover_cache.remove_keys(friend_ids(grid, n, p, color).to_set()),
            ));
            assert forall|k: u128| #[trigger]
                opponent_model.liberty_lists().contains_key(k) implies opponent_model.chains().contains_key(
                k,
            ) && opponent_model.liberty_lists()[k].no_duplicates() by {
                assert(fresh.contains_key(k));
                assert(sets_of(fresh).contains_key(k));
                assert(opponent_chains.contains_key(k));
            }
            lemma_placement_keeps_sound(
                grid,
                n,
                mover_chains,
                mover_cache,
                opponent_chains,
                old(opponent_model).liberty_lists(),
                opponent_model.liberty_lists(),
                p,
                color,
                enemy,
            );
        }
        true
    } else {
        false
    }
}

} // verus!
