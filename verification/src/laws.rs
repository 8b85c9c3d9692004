//! What holds of every position that play can reach: the registries keep
//! describing the board, chains stay connected, and no chain without a
//! liberty stays on the board.

use vstd::prelude::*;
use crate::game::{
    board_after, consistent, mover_after, opponent_after, vacant_grid, Board, BoardView, Player,
    PlayerModel, PlayerModelView, BLACK, EMPTY, WHITE,
};
use crate::rules::{
    adjacent, adjacent_of_color, cache_sound, candidate_group, captured_marker, chain_at,
    chain_tracked, chains_after_merge, chains_alive, chains_connected, chains_tracked, color_at,
    connected, friend_ids, grid_after_capture, grid_after_merge, has_liberty, id_of, in_chains,
    is_liberty, is_path, joined, lemma_adjacent_of_color, lemma_cells_after_merge,
    lemma_concat_contains, lemma_id_of_injective, lemma_merged_members, lemma_with_color,
    lemma_with_color_neighbours, liberties_on, linked, marked, members_of, merged_members,
    neighbours_agree, on_board, self_capture, side_sound, smothered, square, stones_registered,
    vacant_labelled, with_color, Grid, Position,
};

verus! {

/// What a placement starts from: a vacant intersection `p` of a board on
/// which the registry `chains` of the side that plays `color` is sound.
pub open spec fn ready(
    grid: Grid,
    n: usize,
    chains: Map<u128, Seq<Position>>,
    p: Position,
    color: u8,
) -> bool {
    &&& square(grid, n)
    &&& on_board(n, p)
    &&& color_at(grid, p) == EMPTY
    &&& color != EMPTY
    &&& vacant_labelled(grid, n)
    &&& chains_tracked(grid, n, chains, color)
    &&& stones_registered(grid, n, chains, color)
}

/// The stones that the new stone joins are the stones of its colour whose
/// chain label is the label of one of its neighbours of that colour.
pub proof fn lemma_joined(
    grid: Grid,
    n: usize,
    chains: Map<u128, Seq<Position>>,
    p: Position,
    color: u8,
    q: Position,
)
    requires
        ready(grid, n, chains, p, color),
    ensures
        joined(grid, n, chains, p, color).contains(q) <==> on_board(n, q) && color_at(grid, q)
            == color && friend_ids(grid, n, p, color).contains(chain_at(grid, q)),
        joined(grid, n, chains, p, color).contains(q) ==> q != p && chains.contains_key(
            chain_at(grid, q),
        ) && chains[chain_at(grid, q)].contains(q),
{
    let ids = friend_ids(grid, n, p, color);
    lemma_merged_members(chains, ids, q);
    if joined(grid, n, chains, p, color).contains(q) {
        let j = choose|j: int|
            0 <= j < ids.len() && chains.contains_key(#[trigger] ids[j]) && chains[ids[j]].contains(
                q,
            );
        assert(chain_tracked(grid, n, ids[j], chains[ids[j]], color));
        let t = choose|t: int| 0 <= t < chains[ids[j]].len() && chains[ids[j]][t] == q;
        assert(on_board(n, chains[ids[j]][t]));
        assert(ids.contains(chain_at(grid, q)));
    }
    if on_board(n, q) && color_at(grid, q) == color && ids.contains(chain_at(grid, q)) {
        let j = choose|j: int| 0 <= j < ids.len() && ids[j] == chain_at(grid, q);
        assert(chains.contains_key(ids[j]) && chains[ids[j]].contains(q));
    }
}

/// Every neighbour of the new stone that has its colour is among the
/// stones it joins.
pub proof fn lemma_friends_joined(
    grid: Grid,
    n: usize,
    chains: Map<u128, Seq<Position>>,
    p: Position,
    color: u8,
    f: Position,
)
    requires
        ready(grid, n, chains, p, color),
        on_board(n, f),
        adjacent(p, f),
        color_at(grid, f) == color,
    ensures
        joined(grid, n, chains, p, color).contains(f),
        friend_ids(grid, n, p, color).contains(chain_at(grid, f)),
{
    let near = adjacent_of_color(grid, n, p, color);
    lemma_adjacent_of_color(grid, n, p, color);
    assert(near.contains(f));
    let i = choose|i: int| 0 <= i < near.len() && near[i] == f;
    assert(friend_ids(grid, n, p, color)[i] == chain_at(grid, f));
    lemma_joined(grid, n, chains, p, color, f);
}

/// A chain label among the neighbours' labels belongs to a neighbour of
/// the new stone's colour.
pub proof fn lemma_friend_id_witness(grid: Grid, n: usize, p: Position, color: u8, k: u128) -> (f:
    Position)
    requires
        square(grid, n),
        on_board(n, p),
        friend_ids(grid, n, p, color).contains(k),
    ensures
        on_board(n, f),
        adjacent(p, f),
        color_at(grid, f) == color,
        chain_at(grid, f) == k,
{
    let near = adjacent_of_color(grid, n, p, color);
    let ids = friend_ids(grid, n, p, color);
    lemma_adjacent_of_color(grid, n, p, color);
    let i = choose|i: int| 0 <= i < ids.len() && ids[i] == k;
    assert(near.contains(near[i]));
    near[i]
}

/// The stones joined are listed once each.
pub proof fn lemma_merged_no_duplicates(
    grid: Grid,
    n: usize,
    chains: Map<u128, Seq<Position>>,
    color: u8,
    ids: Seq<u128>,
)
    requires
        chains_tracked(grid, n, chains, color),
    ensures
        merged_members(chains, ids).no_duplicates(),
    decreases ids.len(),
{
    if ids.len() > 0 {
        let earlier = ids.drop_last();
        let k = ids.last();
        lemma_merged_no_duplicates(grid, n, chains, color, earlier);
        let head = merged_members(chains, earlier);
        if chains.contains_key(k) && !earlier.contains(k) {
            let tail = chains[k];
            assert(chain_tracked(grid, n, k, tail, color));
            assert forall|i: int, j: int| 0 <= i < head.len() && 0 <= j < tail.len() implies head[i]
                != tail[j] by {
                if head[i] == tail[j] {
                    let q = head[i];
                    assert(head.contains(q));
                    lemma_merged_members(chains, earlier, q);
                    let w = choose|w: int|
                        0 <= w < earlier.len() && chains.contains_key(#[trigger] earlier[w])
                            && chains[earlier[w]].contains(q);
                    assert(chain_tracked(grid, n, earlier[w], chains[earlier[w]], color));
                    let t = choose|t: int|
                        0 <= t < chains[earlier[w]].len() && chains[earlier[w]][t] == q;
                    assert(chain_at(grid, chains[earlier[w]][t]) == earlier[w]);
                    assert(chain_at(grid, tail[j]) == k);
                    assert(earlier.contains(k));
                }
            }
            vstd::seq_lib::lemma_no_dup_in_concat(head, tail);
        } else {
            assert(head + Seq::<Position>::empty() =~= head);
        }
    }
}

/// After the merge the mover's chains are tracked on the board.
pub proof fn lemma_merge_tracked(
    grid: Grid,
    n: usize,
    chains: Map<u128, Seq<Position>>,
    p: Position,
    color: u8,
)
    requires
        ready(grid, n, chains, p, color),
    ensures
        chains_tracked(
            grid_after_merge(grid, n, chains, p, color),
            n,
            chains_after_merge(grid, n, chains, p, color),
            color,
        ),
{
    let after = grid_after_merge(grid, n, chains, p, color);
    let next = chains_after_merge(grid, n, chains, p, color);
    let ids = friend_ids(grid, n, p, color);
    let folk = joined(grid, n, chains, p, color);
    let new_id = id_of(p.0, p.1);
    lemma_cells_after_merge(grid, n, chains, p, color);
    assert forall|k: u128| #[trigger] next.contains_key(k) implies chain_tracked(
        after,
        n,
        k,
        next[k],
        color,
    ) by {
        if k == new_id {
            let members = seq![p] + folk;
            assert(next[k] == members);
            assert(members[0] == p);
            lemma_merged_no_duplicates(grid, n, chains, color, ids);
            assert forall|i: int, j: int| 0 <= i < seq![p].len() && 0 <= j < folk.len() implies seq![
                p,
            ][i] != folk[j] by {
                assert(folk.contains(folk[j]));
                lemma_joined(grid, n, chains, p, color, folk[j]);
            }
            vstd::seq_lib::lemma_no_dup_in_concat(seq![p], folk);
            assert forall|i: int| 0 <= i < members.len() implies on_board(n, #[trigger] members[i])
                && color_at(after, members[i]) == color && chain_at(after, members[i]) == k by {
                if i > 0 {
                    assert(members[i] == folk[i - 1]);
                    assert(folk.contains(folk[i - 1]));
                    lemma_joined(grid, n, chains, p, color, folk[i - 1]);
                } else {
                    lemma_joined(grid, n, chains, p, color, p);
                }
            }
        } else {
            assert(chains.contains_key(k) && !ids.to_set().contains(k));
            assert(next[k] == chains[k]);
            assert(chain_tracked(grid, n, k, chains[k], color));
            assert forall|i: int| 0 <= i < chains[k].len() implies on_board(n, #[trigger] chains[k][i])
                && color_at(after, chains[k][i]) == color && chain_at(after, chains[k][i]) == k by {
                let q = chains[k][i];
                lemma_joined(grid, n, chains, p, color, q);
                assert(!ids.contains(k));
            }
        }
    }
}

/// After the merge every stone of the mover is registered under its label.
pub proof fn lemma_merge_registered(
    grid: Grid,
    n: usize,
    chains: Map<u128, Seq<Position>>,
    p: Position,
    color: u8,
)
    requires
        ready(grid, n, chains, p, color),
    ensures
        stones_registered(
            grid_after_merge(grid, n, chains, p, color),
            n,
            chains_after_merge(grid, n, chains, p, color),
            color,
        ),
{
    let after = grid_after_merge(grid, n, chains, p, color);
    let next = chains_after_merge(grid, n, chains, p, color);
    let ids = friend_ids(grid, n, p, color);
    let folk = joined(grid, n, chains, p, color);
    let new_id = id_of(p.0, p.1);
    lemma_cells_after_merge(grid, n, chains, p, color);
    assert forall|q: Position| on_board(n, q) && #[trigger] color_at(after, q)
        == color implies next.contains_key(chain_at(after, q)) && next[chain_at(after, q)].contains(
        q,
    ) by {
        let members = seq![p] + folk;
        lemma_joined(grid, n, chains, p, color, q);
        lemma_concat_contains(seq![p], folk, q);
        if q == p {
            assert(seq![p][0] == p);
        } else if folk.contains(q) {
        } else {
            let k = chain_at(grid, q);
            assert(color_at(grid, q) == color);
            assert(chains.contains_key(k) && chains[k].contains(q));
            assert(!ids.to_set().contains(k));
            if k == new_id {
                assert(chain_tracked(grid, n, k, chains[k], color));
                lemma_id_of_injective(chains[k][0], p);
            }
        }
    }
}

/// After the merge neighbouring stones of the mover carry the same label.
pub proof fn lemma_merge_neighbours(
    grid: Grid,
    n: usize,
    chains: Map<u128, Seq<Position>>,
    p: Position,
    color: u8,
)
    requires
        ready(grid, n, chains, p, color),
        neighbours_agree(grid, n, color),
    ensures
        neighbours_agree(grid_after_merge(grid, n, chains, p, color), n, color),
{
    let after = grid_after_merge(grid, n, chains, p, color);
    lemma_cells_after_merge(grid, n, chains, p, color);
    assert forall|a: Position, b: Position|
        on_board(n, a) && on_board(n, b) && #[trigger] adjacent(a, b) && color_at(after, a) == color
            && color_at(after, b) == color implies chain_at(after, a) == chain_at(after, b) by {
        lemma_joined(grid, n, chains, p, color, a);
        lemma_joined(grid, n, chains, p, color, b);
        lemma_joined(grid, n, chains, p, color, p);
        if a == p {
            lemma_friends_joined(grid, n, chains, p, color, b);
        } else if b == p {
            assert(adjacent(p, a));
            lemma_friends_joined(grid, n, chains, p, color, a);
        } else {
            assert(chain_at(grid, a) == chain_at(grid, b));
        }
    }
}

/// A path through some stones is a path through any larger set.
pub proof fn lemma_linked_widen(stones: Set<Position>, more: Set<Position>, a: Position, b: Position)
    requires
        linked(stones, a, b),
        stones.subset_of(more),
    ensures
        linked(more, a, b),
{
    let path = choose|path: Seq<Position>|
        #[trigger] is_path(stones, path) && path[0] == a && path.last() == b;
    assert(is_path(more, path));
}

/// Two neighbouring stones are linked.
pub proof fn lemma_linked_step(stones: Set<Position>, a: Position, b: Position)
    requires
        stones.contains(a),
        stones.contains(b),
        adjacent(a, b),
    ensures
        linked(stones, a, b),
{
    let path = seq![a, b];
    assert(is_path(stones, path));
    assert(path[0] == a && path.last() == b);
}

/// A stone is linked to itself.
pub proof fn lemma_linked_self(stones: Set<Position>, a: Position)
    requires
        stones.contains(a),
    ensures
        linked(stones, a, a),
{
    let path = seq![a];
    assert(is_path(stones, path));
    assert(path[0] == a && path.last() == a);
}

/// Paths can be put end to end.
pub proof fn lemma_linked_chain(stones: Set<Position>, a: Position, b: Position, c: Position)
    requires
        linked(stones, a, b),
        linked(stones, b, c),
    ensures
        linked(stones, a, c),
{
    let first = choose|path: Seq<Position>|
        #[trigger] is_path(stones, path) && path[0] == a && path.last() == b;
    let second = choose|path: Seq<Position>|
        #[trigger] is_path(stones, path) && path[0] == b && path.last() == c;
    let path = first + second.drop_first();
    assert forall|i: int| 0 <= i < path.len() implies stones.contains(#[trigger] path[i]) by {
        if i >= first.len() {
            assert(path[i] == second[i - first.len() + 1]);
        }
    }
    assert forall|i: int| 0 <= i < path.len() - 1 implies adjacent(#[trigger] path[i], path[i + 1]) by {
        if i < first.len() - 1 {
            assert(adjacent(first[i], first[i + 1]));
        } else if i == first.len() - 1 {
            assert(path[i] == second[0]);
            assert(path[i + 1] == second[1]);
            assert(adjacent(second[0], second[0int + 1]));
        } else {
            let j = i - first.len() + 1;
            assert(path[i] == second[j]);
            assert(path[i + 1] == second[j + 1]);
            assert(adjacent(second[j], second[j + 1]));
        }
    }
    assert(is_path(stones, path));
    assert(path[0] == a);
    if second.len() == 1 {
        assert(path =~= first);
        assert(b == c);
    } else {
        assert(path.last() == second.last());
    }
}

/// After the merge every chain of the mover is connected: the new stone
/// links the chains it joins.
pub proof fn lemma_merge_connected(
    grid: Grid,
    n: usize,
    chains: Map<u128, Seq<Position>>,
    p: Position,
    color: u8,
)
    requires
        ready(grid, n, chains, p, color),
        chains_connected(chains),
    ensures
        chains_connected(chains_after_merge(grid, n, chains, p, color)),
{
    let next = chains_after_merge(grid, n, chains, p, color);
    let ids = friend_ids(grid, n, p, color);
    let folk = joined(grid, n, chains, p, color);
    let new_id = id_of(p.0, p.1);
    let members = seq![p] + folk;
    let stones = members.to_set();
    assert(members[0] == p);
    assert(stones.contains(p));
    assert forall|a: Position| stones.contains(a) implies linked(stones, a, p) && linked(
        stones,
        p,
        a,
    ) by {
        lemma_concat_contains(seq![p], folk, a);
        if a == p {
            lemma_linked_self(stones, p);
        } else {
            assert(folk.contains(a));
            lemma_joined(grid, n, chains, p, color, a);
            let k = chain_at(grid, a);
            let f = lemma_friend_id_witness(grid, n, p, color, k);
            lemma_friends_joined(grid, n, chains, p, color, f);
            lemma_joined(grid, n, chains, p, color, f);
            let group = chains[k].to_set();
            assert(connected(group));
            assert(group.contains(a) && group.contains(f));
            assert(linked(group, a, f) && linked(group, f, a));
            assert(group.subset_of(stones)) by {
                assert(chain_tracked(grid, n, k, chains[k], color));
                assert forall|m: Position| group.contains(m) implies stones.contains(m) by {
                    let t = choose|t: int| 0 <= t < chains[k].len() && chains[k][t] == m;
                    assert(on_board(n, chains[k][t]));
                    lemma_joined(grid, n, chains, p, color, m);
                    lemma_concat_contains(seq![p], folk, m);
                }
            }
            lemma_linked_widen(group, stones, a, f);
            lemma_linked_widen(group, stones, f, a);
            lemma_concat_contains(seq![p], folk, f);
            lemma_linked_step(stones, f, p);
            lemma_linked_step(stones, p, f);
            lemma_linked_chain(stones, a, f, p);
            lemma_linked_chain(stones, p, f, a);
        }
    }
    assert(connected(stones)) by {
        assert forall|a: Position, b: Position|
            stones.contains(a) && stones.contains(b) implies #[trigger] linked(stones, a, b) by {
            lemma_linked_chain(stones, a, p, b);
        }
    }
    assert forall|k: u128| #[trigger] next.contains_key(k) implies connected(next[k].to_set()) by {
        if k != new_id {
            assert(chains.contains_key(k));
            assert(next[k] == chains[k]);
        }
    }
}

/// After the merge every chain of the mover has a liberty, provided the
/// stone was not put where its group would have none.
pub proof fn lemma_merge_alive(
    grid: Grid,
    n: usize,
    chains: Map<u128, Seq<Position>>,
    p: Position,
    color: u8,
)
    requires
        ready(grid, n, chains, p, color),
        chains_alive(grid, n, chains),
        !self_capture(grid, n, p, color),
    ensures
        chains_alive(
            grid_after_merge(grid, n, chains, p, color),
            n,
            chains_after_merge(grid, n, chains, p, color),
        ),
{
    let after = grid_after_merge(grid, n, chains, p, color);
    let next = chains_after_merge(grid, n, chains, p, color);
    let ids = friend_ids(grid, n, p, color);
    let folk = joined(grid, n, chains, p, color);
    let new_id = id_of(p.0, p.1);
    let stoned = with_color(grid, p, color);
    lemma_cells_after_merge(grid, n, chains, p, color);
    lemma_with_color(grid, n, p, color);
    lemma_with_color_neighbours(grid, n, p, color, color);
    assert forall|k: u128| #[trigger] next.contains_key(k) implies has_liberty(after, n, next[k]) by {
        if k == new_id {
            let members = seq![p] + folk;
            let group = candidate_group(grid, n, p, color);
            let q = choose|q: Position| #[trigger] is_liberty(stoned, n, group, q);
            let i = choose|i: int| 0 <= i < group.len() && #[trigger] adjacent(group[i], q);
            let m = group[i];
            assert(q != p);
            assert(color_at(grid, q) == EMPTY);
            lemma_joined(grid, n, chains, p, color, q);
            assert(color_at(after, q) == EMPTY);
            lemma_concat_contains(seq![p], folk, m);
            if i == 0 {
                assert(m == p);
                assert(seq![p][0] == p);
            } else {
                let near = adjacent_of_color(grid, n, p, color);
                assert(m == near[i - 1]);
                assert(near.contains(m));
                lemma_adjacent_of_color(grid, n, p, color);
                lemma_friends_joined(grid, n, chains, p, color, m);
            }
            let j = choose|j: int| 0 <= j < members.len() && members[j] == m;
            assert(adjacent(members[j], q));
            assert(is_liberty(after, n, members, q));
        } else {
            assert(chains.contains_key(k) && !ids.to_set().contains(k));
            assert(next[k] == chains[k]);
            assert(chain_tracked(grid, n, k, chains[k], color));
            let q = choose|q: Position| #[trigger] is_liberty(grid, n, chains[k], q);
            let i = choose|i: int| 0 <= i < chains[k].len() && #[trigger] adjacent(chains[k][i], q);
            let m = chains[k][i];
            if q == p {
                assert(adjacent(p, m));
                lemma_friends_joined(grid, n, chains, p, color, m);
                assert(ids.contains(k));
            }
            lemma_joined(grid, n, chains, p, color, q);
            assert(color_at(after, q) == EMPTY);
            assert(is_liberty(after, n, chains[k], q));
        }
    }
}

/// After the merge the mover's registry is sound on the board again.
pub proof fn lemma_merge_sound(
    grid: Grid,
    n: usize,
    chains: Map<u128, Seq<Position>>,
    cache: Map<u128, Seq<Position>>,
    p: Position,
    color: u8,
)
    requires
        square(grid, n),
        on_board(n, p),
        color_at(grid, p) == EMPTY,
        color != EMPTY,
        vacant_labelled(grid, n),
        side_sound(grid, n, chains, cache, color),
        !self_capture(grid, n, p, color),
    ensures
        side_sound(
            grid_after_merge(grid, n, chains, p, color),
            n,
            chains_after_merge(grid, n, chains, p, color),
            cache.remove_keys(friend_ids(grid, n, p, color).to_set()),
            color,
        ),
{
    lemma_merge_tracked(grid, n, chains, p, color);
    lemma_merge_registered(grid, n, chains, p, color);
    lemma_merge_neighbours(grid, n, chains, p, color);
    lemma_merge_connected(grid, n, chains, p, color);
    lemma_merge_alive(grid, n, chains, p, color);
    let next = chains_after_merge(grid, n, chains, p, color);
    let kept = cache.remove_keys(friend_ids(grid, n, p, color).to_set());
    assert forall|k: u128| #[trigger] kept.contains_key(k) implies next.contains_key(k)
        && kept[k].no_duplicates() by {
        assert(cache.contains_key(k));
    }
}

/// The merge leaves the stones of the other side, and the vacant
/// intersections, as they were.
pub proof fn lemma_merge_bystanders(
    grid: Grid,
    n: usize,
    chains: Map<u128, Seq<Position>>,
    others: Map<u128, Seq<Position>>,
    p: Position,
    color: u8,
    enemy: u8,
)
    requires
        ready(grid, n, chains, p, color),
        enemy != color,
        enemy != EMPTY,
        chains_tracked(grid, n, others, enemy),
        stones_registered(grid, n, others, enemy),
        neighbours_agree(grid, n, enemy),
    ensures
        vacant_labelled(grid_after_merge(grid, n, chains, p, color), n),
        chains_tracked(grid_after_merge(grid, n, chains, p, color), n, others, enemy),
        stones_registered(grid_after_merge(grid, n, chains, p, color), n, others, enemy),
        neighbours_agree(grid_after_merge(grid, n, chains, p, color), n, enemy),
{
    let after = grid_after_merge(grid, n, chains, p, color);
    lemma_cells_after_merge(grid, n, chains, p, color);
    crate::rules::lemma_tracked_after_merge(grid, n, chains, others, p, color, enemy);
    assert forall|q: Position| on_board(n, q) && #[trigger] color_at(after, q)
        == EMPTY implies chain_at(after, q) == id_of(q.0, q.1) by {
        lemma_joined(grid, n, chains, p, color, q);
        assert(color_at(grid, q) == EMPTY);
    }
    assert forall|q: Position| on_board(n, q) && #[trigger] color_at(after, q)
        == enemy implies others.contains_key(chain_at(after, q)) && others[chain_at(
        after,
        q,
    )].contains(q) by {
        lemma_joined(grid, n, chains, p, color, q);
        assert(color_at(grid, q) == enemy);
    }
    assert forall|a: Position, b: Position|
        on_board(n, a) && on_board(n, b) && #[trigger] adjacent(a, b) && color_at(after, a) == enemy
            && color_at(after, b) == enemy implies chain_at(after, a) == chain_at(after, b) by {
        lemma_joined(grid, n, chains, p, color, a);
        lemma_joined(grid, n, chains, p, color, b);
        assert(chain_at(grid, a) == chain_at(grid, b));
    }
}

/// What a capture does to each intersection: the stones taken turn into
/// markers, nothing else changes, and no label changes.
pub proof fn lemma_cells_after_marking(grid: Grid, n: usize, taken: Set<Position>)
    requires
        square(grid, n),
    ensures
        square(marked(grid, taken), n),
        forall|q: Position|
            on_board(n, q) ==> #[trigger] color_at(marked(grid, taken), q) == (if taken.contains(q) {
                captured_marker(color_at(grid, q))
            } else {
                color_at(grid, q)
            }),
        forall|q: Position|
            on_board(n, q) ==> #[trigger] chain_at(marked(grid, taken), q) == chain_at(grid, q),
{
    let after = marked(grid, taken);
    crate::rules::lemma_marked_square(grid, n, taken);
    assert forall|q: Position| on_board(n, q) implies #[trigger] color_at(after, q) == (
    if taken.contains(q) {
        captured_marker(color_at(grid, q))
    } else {
        color_at(grid, q)
    }) && #[trigger] chain_at(after, q) == chain_at(grid, q) by {
        assert(grid[q.0 as int].len() == n);
        assert((q.0 as int as usize, q.1 as int as usize) == q);
    }
}

/// A capture of stones of one side leaves the registry of the other side
/// sound, and vacant intersections labelled as they were.
pub proof fn lemma_capture_spares(
    grid: Grid,
    n: usize,
    taken: Set<Position>,
    enemy: u8,
    chains: Map<u128, Seq<Position>>,
    cache: Map<u128, Seq<Position>>,
    color: u8,
)
    requires
        square(grid, n),
        enemy == WHITE || enemy == BLACK,
        color == WHITE || color == BLACK,
        color != enemy,
        forall|q: Position| taken.contains(q) ==> on_board(n, q) && color_at(grid, q) == enemy,
        vacant_labelled(grid, n),
        side_sound(grid, n, chains, cache, color),
    ensures
        vacant_labelled(marked(grid, taken), n),
        side_sound(marked(grid, taken), n, chains, cache, color),
{
    let after = marked(grid, taken);
    lemma_cells_after_marking(grid, n, taken);
    assert forall|q: Position| on_board(n, q) && #[trigger] color_at(after, q)
        == EMPTY implies chain_at(after, q) == id_of(q.0, q.1) by {
        assert(color_at(grid, q) == EMPTY);
    }
    assert forall|k: u128| #[trigger] chains.contains_key(k) implies chain_tracked(
        after,
        n,
        k,
        chains[k],
        color,
    ) && has_liberty(after, n, chains[k]) by {
        assert(chain_tracked(grid, n, k, chains[k], color));
        let q = choose|q: Position| #[trigger] is_liberty(grid, n, chains[k], q);
        assert(is_liberty(after, n, chains[k], q));
    }
    assert forall|q: Position| on_board(n, q) && #[trigger] color_at(after, q)
        == color implies chains.contains_key(chain_at(after, q)) && chains[chain_at(
        after,
        q,
    )].contains(q) by {
        assert(color_at(grid, q) == color);
    }
    assert forall|a: Position, b: Position|
        on_board(n, a) && on_board(n, b) && #[trigger] adjacent(a, b) && color_at(after, a) == color
            && color_at(after, b) == color implies chain_at(after, a) == chain_at(after, b) by {
        assert(chain_at(grid, a) == chain_at(grid, b));
    }
}

/// Once the chains without a liberty are captured, the registry of the
/// side that lost them, cleared of those chains, is sound: every chain left
/// has a liberty.
pub proof fn lemma_capture_sound(
    grid: Grid,
    n: usize,
    chains: Map<u128, Seq<Position>>,
    cache: Map<u128, Seq<Position>>,
    enemy: u8,
)
    requires
        square(grid, n),
        enemy == WHITE || enemy == BLACK,
        chains_tracked(grid, n, chains, enemy),
        stones_registered(grid, n, chains, enemy),
        neighbours_agree(grid, n, enemy),
        chains_connected(chains),
        cache_sound(chains.remove_keys(smothered(grid, n, chains)), cache),
    ensures
        side_sound(
            grid_after_capture(grid, n, chains),
            n,
            chains.remove_keys(smothered(grid, n, chains)),
            cache,
            enemy,
        ),
{
    let gone = smothered(grid, n, chains);
    let taken = members_of(chains, gone);
    let after = grid_after_capture(grid, n, chains);
    let left = chains.remove_keys(gone);
    lemma_cells_after_marking(grid, n, taken);
    crate::counting::lemma_members_tracked(grid, n, chains, enemy, gone);
    assert forall|k: u128, q: Position|
        left.contains_key(k) && left[k].contains(q) implies !taken.contains(q) by {
        if taken.contains(q) {
            let w = choose|w: u128|
                gone.contains(w) && chains.contains_key(w) && #[trigger] chains[w].contains(q);
            crate::counting::lemma_chains_apart(grid, n, chains, enemy, w, k, q);
        }
    }
    assert forall|k: u128| #[trigger] left.contains_key(k) implies chain_tracked(
        after,
        n,
        k,
        left[k],
        enemy,
    ) && has_liberty(after, n, left[k]) && connected(left[k].to_set()) by {
        assert(chains.contains_key(k));
        assert(chain_tracked(grid, n, k, chains[k], enemy));
        assert forall|i: int| 0 <= i < left[k].len() implies on_board(n, #[trigger] left[k][i])
            && color_at(after, left[k][i]) == enemy && chain_at(after, left[k][i]) == k by {
            assert(left[k].contains(left[k][i]));
        }
        let q = choose|q: Position| #[trigger] is_liberty(grid, n, chains[k], q);
        assert(is_liberty(after, n, left[k], q));
    }
    assert forall|q: Position| on_board(n, q) && #[trigger] color_at(after, q)
        == enemy implies left.contains_key(chain_at(after, q)) && left[chain_at(after, q)].contains(
        q,
    ) by {
        assert(color_at(grid, q) == enemy);
        let k = chain_at(grid, q);
        if gone.contains(k) {
            assert(in_chains(chains, gone, q));
            assert(taken.contains(q));
        }
    }
    assert forall|a: Position, b: Position|
        on_board(n, a) && on_board(n, b) && #[trigger] adjacent(a, b) && color_at(after, a) == enemy
            && color_at(after, b) == enemy implies chain_at(after, a) == chain_at(after, b) by {
        assert(chain_at(grid, a) == chain_at(grid, b));
    }
}

/// A placement that is not refused leaves both registries sound: the
/// mover's after the merge, the opponent's after the capture of its chains
/// without a liberty, whatever liberties are then cached for the chains that
/// are left.
pub proof fn lemma_placement_keeps_sound(
    grid: Grid,
    n: usize,
    chains: Map<u128, Seq<Position>>,
    cache: Map<u128, Seq<Position>>,
    others: Map<u128, Seq<Position>>,
    stale: Map<u128, Seq<Position>>,
    fresh: Map<u128, Seq<Position>>,
    p: Position,
    color: u8,
    enemy: u8,
)
    requires
        square(grid, n),
        on_board(n, p),
        vacant_labelled(grid, n),
        color == WHITE || color == BLACK,
        enemy == WHITE || enemy == BLACK,
        color != enemy,
        side_sound(grid, n, chains, cache, color),
        side_sound(grid, n, others, stale, enemy),
        color_at(grid, p) == EMPTY,
        !self_capture(grid, n, p, color),
        cache_sound(
            others.remove_keys(smothered(grid_after_merge(grid, n, chains, p, color), n, others)),
            fresh,
        ),
    ensures
        ({
            let merged = grid_after_merge(grid, n, chains, p, color);
            let after = grid_after_capture(merged, n, others);
            &&& square(after, n)
            &&& vacant_labelled(after, n)
            &&& side_sound(
                after,
                n,
                chains_after_merge(grid, n, chains, p, color),
                cache.remove_keys(friend_ids(grid, n, p, color).to_set()),
                color,
            )
            &&& side_sound(after, n, others.remove_keys(smothered(merged, n, others)), fresh, enemy)
        }),
{
    let merged = grid_after_merge(grid, n, chains, p, color);
    let gone = smothered(merged, n, others);
    let stones = members_of(others, gone);
    lemma_cells_after_merge(grid, n, chains, p, color);
    lemma_merge_sound(grid, n, chains, cache, p, color);
    lemma_merge_bystanders(grid, n, chains, others, p, color, enemy);
    crate::counting::lemma_members_tracked(merged, n, others, enemy, gone);
    lemma_cells_after_marking(merged, n, stones);
    lemma_capture_spares(
        merged,
        n,
        stones,
        enemy,
        chains_after_merge(grid, n, chains, p, color),
        cache.remove_keys(friend_ids(grid, n, p, color).to_set()),
        color,
    );
    lemma_capture_sound(merged, n, others, fresh, enemy);
}

/// A game starts from a consistent position: a vacant board and two empty
/// registries, one of each colour.
pub proof fn lemma_new_game_consistent(board: &Board, white: &PlayerModel, black: &PlayerModel)
    requires
        board.board_size > 0,
        board.board_size * board.board_size <= usize::MAX,
        board@ == (BoardView {
            board_size: board.board_size,
            grid: vacant_grid(board.board_size),
            white_captured: 0,
            black_captured: 0,
            is_white_turn: true,
        }),
        white@ == (PlayerModelView {
            chains: Map::empty(),
            liberties: Map::empty(),
            player: Player { player_color: WHITE, opponent_color: BLACK },
        }),
        black@ == (PlayerModelView {
            chains: Map::empty(),
            liberties: Map::empty(),
            player: Player { player_color: BLACK, opponent_color: WHITE },
        }),
    ensures
        consistent(board, white, black),
{
    let n = board.board_size;
    let grid = vacant_grid(n);
    assert(crate::rules::cells_of_color(grid, n, crate::game::WHITE_TERR) =~= Set::<
        Position,
    >::empty());
    assert(crate::rules::cells_of_color(grid, n, crate::game::BLACK_TERR) =~= Set::<
        Position,
    >::empty());
    assert forall|k: u128| !white.liberty_lists().contains_key(k) by {
        assert(!white@.liberties.contains_key(k));
    }
    assert forall|k: u128| !black.liberty_lists().contains_key(k) by {
        assert(!black@.liberties.contains_key(k));
    }
}

/// In a sound position two neighbouring stones of one colour carry the
/// same chain label, are members of the chain registered under it, and are
/// linked by a path of stones of that chain.
pub proof fn lemma_neighbours_share_chain(
    board: &Board,
    model: &PlayerModel,
    a: Position,
    b: Position,
)
    requires
        board.well_formed(),
        model.sound_on(board),
        on_board(board.board_size, a),
        on_board(board.board_size, b),
        adjacent(a, b),
        color_at(board@.grid, a) == model.player.player_color,
        color_at(board@.grid, b) == model.player.player_color,
    ensures
        chain_at(board@.grid, a) == chain_at(board@.grid, b),
        model.chains().contains_key(chain_at(board@.grid, a)),
        model.chains()[chain_at(board@.grid, a)].contains(a),
        model.chains()[chain_at(board@.grid, a)].contains(b),
        linked(model.chains()[chain_at(board@.grid, a)].to_set(), a, b),
{
    let k = chain_at(board@.grid, a);
    assert(connected(model.chains()[k].to_set()));
}

/// In a sound position every registered chain is one group: its stones lie
/// on the board, have the colour of the side that registered it, carry its
/// key as their label, are linked to one another through the chain, and the
/// chain has a liberty.
pub proof fn lemma_chain_is_one_group(board: &Board, model: &PlayerModel, k: u128)
    requires
        board.well_formed(),
        model.sound_on(board),
        model.chains().contains_key(k),
    ensures
        forall|i: int|
            0 <= i < model.chains()[k].len() ==> on_board(
                board.board_size,
                #[trigger] model.chains()[k][i],
            ) && color_at(board@.grid, model.chains()[k][i]) == model.player.player_color
                && chain_at(board@.grid, model.chains()[k][i]) == k,
        model.chains()[k].no_duplicates(),
        connected(model.chains()[k].to_set()),
        has_liberty(board@.grid, board.board_size, model.chains()[k]),
{
    assert(chain_tracked(
        board@.grid,
        board.board_size,
        k,
        model.chains()[k],
        model.player.player_color,
    ));
}

/// A placement removes a chain of the opponent exactly when the chain has
/// no liberty on the board as the new stone leaves it; the chains that stay
/// keep their members.
pub proof fn lemma_capture_is_exact(
    board: &Board,
    mover: &PlayerModel,
    opponent: &PlayerModel,
    p: Position,
    k: u128,
)
    requires
        opponent.chains().contains_key(k),
    ensures
        opponent_after(board@, mover, opponent, p).chains.contains_key(k) <==> has_liberty(
            grid_after_merge(
                board@.grid,
                board.board_size,
                mover.chains(),
                p,
                mover.player.player_color,
            ),
            board.board_size,
            opponent.chains()[k],
        ),
        opponent_after(board@, mover, opponent, p).chains.contains_key(k) ==> opponent_after(
            board@,
            mover,
            opponent,
            p,
        ).chains[k] == opponent.chains()[k],
{
}

/// A registry with the liberties of its chains computed afresh on `grid`.
pub open spec fn with_fresh_liberties(grid: Grid, n: usize, model: PlayerModelView) -> PlayerModelView {
    PlayerModelView { liberties: liberties_on(grid, n, model.chains), ..model }
}

/// Computing the liberties afresh a second time, with no placement in
/// between, changes nothing: the liberties depend on the board and on the
/// chains alone.
pub proof fn lemma_fresh_liberties_idempotent(grid: Grid, n: usize, model: PlayerModelView)
    ensures
        with_fresh_liberties(grid, n, with_fresh_liberties(grid, n, model)) == with_fresh_liberties(
            grid,
            n,
            model,
        ),
{
}

/// In a sound position a stone is a member of one chain only.
pub proof fn lemma_member_of_one_chain(
    board: &Board,
    model: &PlayerModel,
    a: u128,
    b: u128,
    p: Position,
)
    requires
        model.sound_on(board),
        model.chains().contains_key(a),
        model.chains().contains_key(b),
        model.chains()[a].contains(p),
        model.chains()[b].contains(p),
    ensures
        a == b,
{
    crate::counting::lemma_chains_apart(
        board@.grid,
        board.board_size,
        model.chains(),
        model.player.player_color,
        a,
        b,
        p,
    );
}

/// In a consistent position the members of the registered chains are
/// exactly the stones on the board, and no intersection is a member of
/// chains of both sides.
pub proof fn lemma_members_are_the_stones(
    board: &Board,
    one: &PlayerModel,
    other: &PlayerModel,
    p: Position,
)
    requires
        consistent(board, one, other),
        on_board(board.board_size, p),
    ensures
        in_chains(one.chains(), Set::full(), p) <==> color_at(board@.grid, p)
            == one.player.player_color,
        in_chains(other.chains(), Set::full(), p) <==> color_at(board@.grid, p)
            == other.player.player_color,
        in_chains(one.chains(), Set::full(), p) || in_chains(other.chains(), Set::full(), p) <==> (
        color_at(board@.grid, p) == WHITE || color_at(board@.grid, p) == BLACK),
        !(in_chains(one.chains(), Set::full(), p) && in_chains(other.chains(), Set::full(), p)),
{
    let grid = board@.grid;
    let n = board.board_size;
    crate::counting::lemma_members_tracked(
        grid,
        n,
        one.chains(),
        one.player.player_color,
        Set::full(),
    );
    crate::counting::lemma_members_tracked(
        grid,
        n,
        other.chains(),
        other.player.player_color,
        Set::full(),
    );
    assert(members_of(one.chains(), Set::full()).contains(p) == in_chains(
        one.chains(),
        Set::full(),
        p,
    ));
    assert(members_of(other.chains(), Set::full()).contains(p) == in_chains(
        other.chains(),
        Set::full(),
        p,
    ));
    if color_at(grid, p) == one.player.player_color {
        assert(one.chains()[chain_at(grid, p)].contains(p));
        assert(Set::<u128>::full().contains(chain_at(grid, p)));
    }
    if color_at(grid, p) == other.player.player_color {
        assert(other.chains()[chain_at(grid, p)].contains(p));
        assert(Set::<u128>::full().contains(chain_at(grid, p)));
    }
}

/// A position as plain values: the board and the chains of the two sides.
pub struct Standing {
    pub n: usize,
    pub grid: Grid,
    pub white: Map<u128, Seq<Position>>,
    pub black: Map<u128, Seq<Position>>,
}

/// The colour that `color` plays against.
pub open spec fn rival(color: u8) -> u8 {
    if color == WHITE {
        BLACK
    } else {
        WHITE
    }
}

/// The chains of the side that plays `color`.
pub open spec fn chains_of(s: Standing, color: u8) -> Map<u128, Seq<Position>> {
    if color == WHITE {
        s.white
    } else {
        s.black
    }
}

/// Both registries of the position are sound on its board.
pub open spec fn standing_sound(s: Standing) -> bool {
    &&& square(s.grid, s.n)
    &&& vacant_labelled(s.grid, s.n)
    &&& side_sound(s.grid, s.n, s.white, Map::empty(), WHITE)
    &&& side_sound(s.grid, s.n, s.black, Map::empty(), BLACK)
}

/// The position before the first stone.
pub open spec fn opening(n: usize) -> Standing {
    Standing { n, grid: vacant_grid(n), white: Map::empty(), black: Map::empty() }
}

/// A stone of `color` may stand at `p`, whoever's turn it is.
pub open spec fn may_stand(s: Standing, color: u8, p: Position) -> bool {
    &&& on_board(s.n, p)
    &&& color == WHITE || color == BLACK
    &&& color_at(s.grid, p) == EMPTY
    &&& !self_capture(s.grid, s.n, p, color)
}

/// The position after the side that plays `color` has tried to put a
/// stone at `p`: the position as it was if the stone may not stand there.
pub open spec fn after_placement(s: Standing, color: u8, p: Position) -> Standing {
    if may_stand(s, color, p) {
        let mine = chains_of(s, color);
        let theirs = chains_of(s, rival(color));
        let merged = grid_after_merge(s.grid, s.n, mine, p, color);
        let mine_after = chains_after_merge(s.grid, s.n, mine, p, color);
        let theirs_after = theirs.remove_keys(smothered(merged, s.n, theirs));
        Standing {
            n: s.n,
            grid: grid_after_capture(merged, s.n, theirs),
            white: if color == WHITE {
                mine_after
            } else {
                theirs_after
            },
            black: if color == WHITE {
                theirs_after
            } else {
                mine_after
            },
        }
    } else {
        s
    }
}

/// The position after a sequence of attempts, each by the side named
/// with it.
pub open spec fn after_placements(s: Standing, moves: Seq<(u8, Position)>) -> Standing
    decreases moves.len(),
{
    if moves.len() == 0 {
        s
    } else {
        after_placement(after_placements(s, moves.drop_last()), moves.last().0, moves.last().1)
    }
}

/// One placement keeps a sound position sound.
pub proof fn lemma_placement_is_sound(s: Standing, color: u8, p: Position)
    requires
        standing_sound(s),
    ensures
        standing_sound(after_placement(s, color, p)),
{
    if may_stand(s, color, p) {
        let mine = chains_of(s, color);
        let theirs = chains_of(s, rival(color));
        lemma_placement_keeps_sound(
            s.grid,
            s.n,
            mine,
            Map::empty(),
            theirs,
            Map::empty(),
            Map::empty(),
            p,
            color,
            rival(color),
        );
    }
}

/// Whatever stones are put down, in whatever order and by whichever side,
/// the position stays sound: neighbouring stones of one colour share a
/// chain, every chain is a connected group of one colour, every stone is in
/// exactly one chain, and every chain on the board has a liberty.
pub proof fn lemma_every_position_is_sound(n: usize, moves: Seq<(u8, Position)>)
    ensures
        standing_sound(after_placements(opening(n), moves)),
    decreases moves.len(),
{
    if moves.len() > 0 {
        lemma_every_position_is_sound(n, moves.drop_last());
        lemma_placement_is_sound(
            after_placements(opening(n), moves.drop_last()),
            moves.last().0,
            moves.last().1,
        );
    }
}

/// The position that a board and two registries stand for.
pub open spec fn standing_of(board: &Board, one: &PlayerModel, other: &PlayerModel) -> Standing {
    Standing {
        n: board.board_size,
        grid: board@.grid,
        white: if one.player.player_color == WHITE {
            one.chains()
        } else {
            other.chains()
        },
        black: if one.player.player_color == WHITE {
            other.chains()
        } else {
            one.chains()
        },
    }
}

/// A consistent board with its registries stands for a sound position.
pub proof fn lemma_consistent_is_sound(board: &Board, one: &PlayerModel, other: &PlayerModel)
    requires
        consistent(board, one, other),
    ensures
        standing_sound(standing_of(board, one, other)),
{
}

/// What `place_stone` leaves behind when it accepts a stone is the position
/// after that placement.
pub proof fn lemma_accepted_is_placement(
    board: &Board,
    mover: &PlayerModel,
    opponent: &PlayerModel,
    p: Position,
)
    requires
        consistent(board, mover, opponent),
        on_board(board.board_size, p),
        color_at(board@.grid, p) == EMPTY,
        !self_capture(board@.grid, board.board_size, p, mover.player.player_color),
    ensures
        ({
            let color = mover.player.player_color;
            let next = after_placement(standing_of(board, mover, opponent), color, p);
            &&& next.n == board.board_size
            &&& next.grid == board_after(board@, mover.chains(), opponent.chains(), p, color).grid
            &&& chains_of(next, color) == mover_after(board@, mover, p).chains
            &&& chains_of(next, rival(color)) == opponent_after(board@, mover, opponent, p).chains
        }),
{
}

} // verus!
