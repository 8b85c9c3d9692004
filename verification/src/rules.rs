//! The mathematical model of the board: positions, adjacency, liberties and
//! the grid transformations that a placement is made of.

use vstd::prelude::*;
use crate::game::{Intersection, BLACK, BLACK_TERR, EMPTY, WHITE, WHITE_TERR};

verus! {

/// A (row, column) pair, counted from zero.
pub type Position = (usize, usize);

/// The intersections of a board, row by row.
pub type Grid = Seq<Seq<Intersection>>;

/// The identifier generated from a position: the row in the upper 64 bits,
/// the column in the lower 64.
pub open spec fn id_of(row: usize, col: usize) -> u128 {
    (row as int * 0x1_0000_0000_0000_0000 + col as int) as u128
}

/// Distinct positions have distinct identifiers.
pub proof fn lemma_id_of_injective(a: Position, b: Position)
    requires
        id_of(a.0, a.1) == id_of(b.0, b.1),
    ensures
        a == b,
{
    assert(usize::MAX < 0x1_0000_0000_0000_0000);
}

/// `p` lies on a board of `n` by `n`.
pub open spec fn on_board(n: usize, p: Position) -> bool {
    p.0 < n && p.1 < n
}

/// `grid` has `n` rows of `n` intersections, each recording its own
/// coordinates.
pub open spec fn square(grid: Grid, n: usize) -> bool {
    &&& grid.len() == n
    &&& forall|r: int| 0 <= r < n ==> (#[trigger] grid[r]).len() == n
    &&& forall|r: int, c: int|
        0 <= r < n && 0 <= c < n ==> (#[trigger] grid[r][c]).row == r && grid[r][c].col == c
}

/// The intersection at `p`.
pub open spec fn cell(grid: Grid, p: Position) -> Intersection {
    grid[p.0 as int][p.1 as int]
}

/// What occupies the intersection at `p`.
pub open spec fn color_at(grid: Grid, p: Position) -> u8 {
    cell(grid, p).player_color
}

/// The chain label of the intersection at `p`.
pub open spec fn chain_at(grid: Grid, p: Position) -> u128 {
    cell(grid, p).chain_id
}

/// `grid` with the colour of the intersection at `p` replaced.
pub open spec fn with_color(grid: Grid, p: Position, color: u8) -> Grid {
    grid.update(
        p.0 as int,
        grid[p.0 as int].update(p.1 as int, Intersection { player_color: color, ..cell(grid, p) }),
    )
}

/// The colour of the side to move.
pub open spec fn side_to_move(is_white_turn: bool) -> u8 {
    if is_white_turn {
        WHITE
    } else {
        BLACK
    }
}

/// Two positions are orthogonal neighbours.
pub open spec fn adjacent(p: Position, q: Position) -> bool {
    ||| (p.0 == q.0 && (p.1 + 1 == q.1 || q.1 + 1 == p.1))
    ||| (p.1 == q.1 && (p.0 + 1 == q.0 || q.0 + 1 == p.0))
}

/// `q` alone if it is a neighbour to report, nothing otherwise.
pub open spec fn only_if(present: bool, q: Position) -> Seq<Position> {
    if present {
        seq![q]
    } else {
        Seq::empty()
    }
}

/// The orthogonal neighbours of `p` on an `n` by `n` board whose colour is
/// `color`, in the order left, right, up, down.
pub open spec fn adjacent_of_color(grid: Grid, n: usize, p: Position, color: u8) -> Seq<Position> {
    let left = ((p.0, (p.1 - 1) as usize));
    let right = ((p.0, (p.1 + 1) as usize));
    let up = (((p.0 - 1) as usize, p.1));
    let down = (((p.0 + 1) as usize, p.1));
    only_if(p.1 != 0 && color_at(grid, left) == color, left)
        + only_if(p.1 + 1 < n && color_at(grid, right) == color, right)
        + only_if(p.0 != 0 && color_at(grid, up) == color, up)
        + only_if(p.0 + 1 < n && color_at(grid, down) == color, down)
}

/// An element lies in a concatenation exactly when it lies in one of the two
/// parts.
pub proof fn lemma_concat_contains<A>(x: Seq<A>, y: Seq<A>, q: A)
    ensures
        (x + y).contains(q) <==> x.contains(q) || y.contains(q),
{
    if x.contains(q) {
        let i = choose|i: int| 0 <= i < x.len() && x[i] == q;
        assert((x + y)[i] == q);
    }
    if y.contains(q) {
        let i = choose|i: int| 0 <= i < y.len() && y[i] == q;
        assert((x + y)[x.len() + i] == q);
    }
    if (x + y).contains(q) {
        let i = choose|i: int| 0 <= i < (x + y).len() && (x + y)[i] == q;
        if i < x.len() {
            assert(x[i] == q);
        } else {
            assert(y[i - x.len()] == q);
        }
    }
}

/// `only_if` holds its position exactly when asked to.
pub proof fn lemma_only_if(present: bool, x: Position, q: Position)
    ensures
        only_if(present, x).contains(q) <==> present && q == x,
        only_if(present, x).no_duplicates(),
        only_if(present, x).len() <= 1,
{
    if present {
        assert(only_if(present, x)[0] == x);
    }
}

/// The neighbour list holds exactly the on-board orthogonal neighbours of the
/// wanted colour, each once.
pub proof fn lemma_adjacent_of_color(grid: Grid, n: usize, p: Position, color: u8)
    requires
        on_board(n, p),
    ensures
        adjacent_of_color(grid, n, p, color).no_duplicates(),
        adjacent_of_color(grid, n, p, color).len() <= 4,
        forall|q: Position|
            adjacent_of_color(grid, n, p, color).contains(q) <==> on_board(n, q) && adjacent(p, q)
                && color_at(grid, q) == color,
{
    let left = ((p.0, (p.1 - 1) as usize));
    let right = ((p.0, (p.1 + 1) as usize));
    let up = (((p.0 - 1) as usize, p.1));
    let down = (((p.0 + 1) as usize, p.1));
    let ca = p.1 != 0 && color_at(grid, left) == color;
    let cb = p.1 + 1 < n && color_at(grid, right) == color;
    let cc = p.0 != 0 && color_at(grid, up) == color;
    let cd = p.0 + 1 < n && color_at(grid, down) == color;
    let a = only_if(ca, left);
    let b = only_if(cb, right);
    let c = only_if(cc, up);
    let d = only_if(cd, down);
    let s = adjacent_of_color(grid, n, p, color);
    assert(s == a + b + c + d);
    assert forall|q: Position| s.contains(q) <==> on_board(n, q) && adjacent(p, q) && color_at(
        grid,
        q,
    ) == color by {
        lemma_only_if(ca, left, q);
        lemma_only_if(cb, right, q);
        lemma_only_if(cc, up, q);
        lemma_only_if(cd, down, q);
        lemma_concat_contains(a, b, q);
        lemma_concat_contains(a + b, c, q);
        lemma_concat_contains(a + b + c, d, q);
    }
    assert(s.no_duplicates()) by {
        assert forall|i: int, j: int| 0 <= i < a.len() && 0 <= j < b.len() implies a[i] != b[j] by {
            lemma_only_if(ca, left, a[i]);
            lemma_only_if(cb, right, b[j]);
        }
        lemma_only_if(ca, left, left);
        lemma_only_if(cb, right, right);
        lemma_only_if(cc, up, up);
        lemma_only_if(cd, down, down);
        vstd::seq_lib::lemma_no_dup_in_concat(a, b);
        assert forall|i: int, j: int| 0 <= i < (a + b).len() && 0 <= j < c.len() implies (a + b)[i]
            != c[j] by {
            lemma_concat_contains(a, b, (a + b)[i]);
            lemma_only_if(ca, left, (a + b)[i]);
            lemma_only_if(cb, right, (a + b)[i]);
            lemma_only_if(cc, up, c[j]);
        }
        vstd::seq_lib::lemma_no_dup_in_concat(a + b, c);
        assert forall|i: int, j: int| 0 <= i < (a + b + c).len() && 0 <= j < d.len() implies (a + b
            + c)[i] != d[j] by {
            let x = (a + b + c)[i];
            lemma_concat_contains(a + b, c, x);
            lemma_concat_contains(a, b, x);
            lemma_only_if(ca, left, x);
            lemma_only_if(cb, right, x);
            lemma_only_if(cc, up, x);
            lemma_only_if(cd, down, d[j]);
        }
        vstd::seq_lib::lemma_no_dup_in_concat(a + b + c, d);
    }
}

/// What `square` says of a board held as a vector of rows.
pub proof fn lemma_square_rows(state: Seq<Vec<Intersection>>, n: usize)
    requires
        square(crate::game::grid_of(state), n),
    ensures
        state.len() == n,
        forall|r: int| 0 <= r < n ==> (#[trigger] state[r])@.len() == n,
        forall|r: int, c: int|
            0 <= r < n && 0 <= c < n ==> (#[trigger] state[r]@[c]).row == r && state[r]@[c].col == c,
{
    let grid = crate::game::grid_of(state);
    assert forall|r: int| 0 <= r < n implies (#[trigger] state[r])@.len() == n by {
        assert(grid[r].len() == n);
    }
    assert forall|r: int, c: int| 0 <= r < n && 0 <= c < n implies (#[trigger] state[r]@[c]).row
        == r && state[r]@[c].col == c by {
        assert(grid[r][c].row == r);
    }
}

/// Some member of `members` is an orthogonal neighbour of `q`.
pub open spec fn touches(members: Seq<Position>, q: Position) -> bool {
    exists|i: int| 0 <= i < members.len() && #[trigger] adjacent(members[i], q)
}

/// `q` is a liberty of the group `members`: a vacant intersection of the
/// board next to one of its stones.
pub open spec fn is_liberty(grid: Grid, n: usize, members: Seq<Position>, q: Position) -> bool {
    on_board(n, q) && color_at(grid, q) == EMPTY && touches(members, q)
}

/// The liberties of the group `members`.
pub open spec fn liberty_set(grid: Grid, n: usize, members: Seq<Position>) -> Set<Position> {
    Set::new(|q: Position| is_liberty(grid, n, members, q))
}

/// The group `members` has a liberty.
pub open spec fn has_liberty(grid: Grid, n: usize, members: Seq<Position>) -> bool {
    exists|q: Position| #[trigger] is_liberty(grid, n, members, q)
}

/// The liberties of every chain of a registry.
pub open spec fn liberties_on(grid: Grid, n: usize, chains: Map<u128, Seq<Position>>) -> Map<
    u128,
    Set<Position>,
> {
    Map::new(|k: u128| chains.contains_key(k), |k: u128| liberty_set(grid, n, chains[k]))
}

/// A group has a liberty exactly when its liberty set is not empty.
pub proof fn lemma_has_liberty(grid: Grid, n: usize, members: Seq<Position>)
    ensures
        has_liberty(grid, n, members) <==> liberty_set(grid, n, members) != Set::<Position>::empty(),
{
    let s = liberty_set(grid, n, members);
    if has_liberty(grid, n, members) {
        let q = choose|q: Position| #[trigger] is_liberty(grid, n, members, q);
        assert(s.contains(q));
    } else {
        assert(s =~= Set::<Position>::empty());
    }
}

/// Taking one more member into a group adds the vacant neighbours of that
/// member to its liberties.
pub proof fn lemma_liberties_grow(grid: Grid, n: usize, members: Seq<Position>, j: int)
    requires
        0 <= j < members.len(),
        on_board(n, members[j]),
    ensures
        liberty_set(grid, n, members.take(j + 1)) == liberty_set(grid, n, members.take(j))
            + adjacent_of_color(grid, n, members[j], EMPTY).to_set(),
{
    let before = members.take(j);
    let after = members.take(j + 1);
    let near = adjacent_of_color(grid, n, members[j], EMPTY);
    lemma_adjacent_of_color(grid, n, members[j], EMPTY);
    assert forall|q: Position|
        liberty_set(grid, n, after).contains(q) <==> liberty_set(grid, n, before).contains(q)
            || near.to_set().contains(q) by {
        if is_liberty(grid, n, after, q) {
            let i = choose|i: int| 0 <= i < after.len() && #[trigger] adjacent(after[i], q);
            if i < j {
                assert(adjacent(before[i], q));
            } else {
                assert(near.contains(q));
            }
        }
        if is_liberty(grid, n, before, q) {
            let i = choose|i: int| 0 <= i < before.len() && #[trigger] adjacent(before[i], q);
            assert(adjacent(after[i], q));
        }
        if near.contains(q) {
            assert(adjacent(after[j], q));
        }
    }
    assert(liberty_set(grid, n, after) =~= liberty_set(grid, n, before) + near.to_set());
}

/// The group whose liberties decide whether a stone of `color` may be put
/// at `p`: the stone itself and its direct neighbours of the same colour.
pub open spec fn candidate_group(grid: Grid, n: usize, p: Position, color: u8) -> Seq<Position> {
    seq![p] + adjacent_of_color(with_color(grid, p, color), n, p, color)
}

/// A stone of `color` put at `p` would leave its candidate group without a
/// liberty. Captures that the stone would make are not taken into account.
pub open spec fn self_capture(grid: Grid, n: usize, p: Position, color: u8) -> bool {
    !has_liberty(with_color(grid, p, color), n, candidate_group(grid, n, p, color))
}

/// The chain labels found on the board at `positions`.
pub open spec fn labels_of(grid: Grid, positions: Seq<Position>) -> Seq<u128> {
    Seq::new(positions.len(), |i: int| chain_at(grid, positions[i]))
}

/// Every member of every registered chain lies on the board and is
/// labelled with the key of its chain.
pub open spec fn chains_labelled(grid: Grid, n: usize, chains: Map<u128, Seq<Position>>) -> bool {
    forall|k: u128, i: int|
        #![trigger chains[k][i]]
        chains.contains_key(k) && 0 <= i < chains[k].len() ==> on_board(n, chains[k][i])
            && chain_at(grid, chains[k][i]) == k
}

/// The members of the chains registered under `ids`, chain after chain in
/// the order of `ids`; an identifier that occurs again, or that is not
/// registered, adds nothing.
pub open spec fn merged_members(chains: Map<u128, Seq<Position>>, ids: Seq<u128>) -> Seq<Position>
    decreases ids.len(),
{
    if ids.len() == 0 {
        Seq::empty()
    } else {
        let earlier = ids.drop_last();
        let k = ids.last();
        merged_members(chains, earlier) + (if chains.contains_key(k) && !earlier.contains(k) {
            chains[k]
        } else {
            Seq::empty()
        })
    }
}

/// The merged members are the members of the registered chains among `ids`.
pub proof fn lemma_merged_members(chains: Map<u128, Seq<Position>>, ids: Seq<u128>, q: Position)
    ensures
        merged_members(chains, ids).contains(q) <==> exists|j: int|
            0 <= j < ids.len() && chains.contains_key(#[trigger] ids[j]) && chains[ids[j]].contains(
                q,
            ),
    decreases ids.len(),
{
    if ids.len() > 0 {
        let earlier = ids.drop_last();
        let k = ids.last();
        let tail = if chains.contains_key(k) && !earlier.contains(k) {
            chains[k]
        } else {
            Seq::empty()
        };
        lemma_merged_members(chains, earlier, q);
        lemma_concat_contains(merged_members(chains, earlier), tail, q);
        if merged_members(chains, ids).contains(q) {
            if merged_members(chains, earlier).contains(q) {
                let j = choose|j: int|
                    0 <= j < earlier.len() && chains.contains_key(#[trigger] earlier[j])
                        && chains[earlier[j]].contains(q);
                assert(ids[j] == earlier[j]);
            } else {
                assert(ids[ids.len() - 1] == k);
            }
        }
        if exists|j: int|
            0 <= j < ids.len() && chains.contains_key(#[trigger] ids[j]) && chains[ids[j]].contains(
                q,
            ) {
            let j = choose|j: int|
                0 <= j < ids.len() && chains.contains_key(#[trigger] ids[j])
                    && chains[ids[j]].contains(q);
            if j < earlier.len() {
                assert(earlier[j] == ids[j]);
            } else if earlier.contains(k) {
                let t = choose|t: int| 0 <= t < earlier.len() && earlier[t] == k;
                assert(chains.contains_key(earlier[t]) && chains[earlier[t]].contains(q));
            }
        }
    }
}

/// `grid` with the chain label of every intersection in `members` replaced
/// by `id`.
pub open spec fn relabelled(grid: Grid, members: Set<Position>, id: u128) -> Grid {
    Seq::new(
        grid.len(),
        |r: int|
            Seq::new(
                grid[r].len(),
                |c: int|
                    if members.contains((r as usize, c as usize)) {
                        Intersection { chain_id: id, ..grid[r][c] }
                    } else {
                        grid[r][c]
                    },
            ),
    )
}

/// Relabelling keeps the shape of the board.
pub proof fn lemma_relabelled_square(grid: Grid, n: usize, members: Set<Position>, id: u128)
    requires
        square(grid, n),
    ensures
        square(relabelled(grid, members, id), n),
{
    let after = relabelled(grid, members, id);
    assert forall|r: int| 0 <= r < n implies (#[trigger] after[r]).len() == n by {
        assert(grid[r].len() == n);
    }
    assert forall|r: int, c: int| 0 <= r < n && 0 <= c < n implies (#[trigger] after[r][c]).row == r
        && after[r][c].col == c by {
        assert(grid[r].len() == n);
        assert(grid[r][c].row == r);
    }
}

/// `grid` with the chain label of the intersection at `p` replaced.
pub open spec fn with_label(grid: Grid, p: Position, id: u128) -> Grid {
    grid.update(
        p.0 as int,
        grid[p.0 as int].update(p.1 as int, Intersection { chain_id: id, ..cell(grid, p) }),
    )
}

/// Relabelling one more intersection of a relabelled board is relabelling
/// the larger set.
pub proof fn lemma_relabel_one_more(
    grid: Grid,
    n: usize,
    done: Set<Position>,
    p: Position,
    id: u128,
)
    requires
        square(grid, n),
        on_board(n, p),
    ensures
        with_label(relabelled(grid, done, id), p, id) == relabelled(grid, done.insert(p), id),
{
    let was = relabelled(grid, done, id);
    let now = with_label(was, p, id);
    let goal = relabelled(grid, done.insert(p), id);
    assert forall|r: int| 0 <= r < n implies #[trigger] now[r] =~= goal[r] by {
        assert(grid[r].len() == n);
        assert forall|c: int| 0 <= c < n implies now[r][c] == goal[r][c] by {
            let q = (r as usize, c as usize);
            assert(done.insert(p).contains(q) <==> done.contains(q) || q == p);
        }
    }
    assert(now =~= goal);
}

/// Putting back the colour that an intersection had restores the board.
pub proof fn lemma_with_color_restores(grid: Grid, n: usize, p: Position, color: u8)
    requires
        square(grid, n),
        on_board(n, p),
    ensures
        with_color(with_color(grid, p, color), p, color_at(grid, p)) == grid,
{
    let stoned = with_color(grid, p, color);
    let now = with_color(stoned, p, color_at(grid, p));
    assert(grid[p.0 as int].len() == n);
    assert forall|r: int| 0 <= r < n implies #[trigger] now[r] =~= grid[r] by {
        assert(grid[r].len() == n);
    }
    assert(now =~= grid);
}

/// What a captured stone of `color` leaves behind: the territory marker of
/// the other side. Anything that is not a stone stays as it is.
pub open spec fn captured_marker(color: u8) -> u8 {
    if color == WHITE {
        BLACK_TERR
    } else if color == BLACK {
        WHITE_TERR
    } else {
        color
    }
}

/// `grid` with every stone in `taken` turned into the territory marker of
/// its captor.
pub open spec fn marked(grid: Grid, taken: Set<Position>) -> Grid {
    Seq::new(
        grid.len(),
        |r: int|
            Seq::new(
                grid[r].len(),
                |c: int|
                    if taken.contains((r as usize, c as usize)) {
                        Intersection {
                            player_color: captured_marker(grid[r][c].player_color),
                            ..grid[r][c]
                        }
                    } else {
                        grid[r][c]
                    },
            ),
    )
}

/// Capturing keeps the shape of the board.
pub proof fn lemma_marked_square(grid: Grid, n: usize, taken: Set<Position>)
    requires
        square(grid, n),
    ensures
        square(marked(grid, taken), n),
{
    let after = marked(grid, taken);
    assert forall|r: int| 0 <= r < n implies (#[trigger] after[r]).len() == n by {
        assert(grid[r].len() == n);
    }
    assert forall|r: int, c: int| 0 <= r < n && 0 <= c < n implies (#[trigger] after[r][c]).row == r
        && after[r][c].col == c by {
        assert(grid[r].len() == n);
        assert(grid[r][c].row == r);
    }
}

/// Capturing one more stone of a board with captures is capturing the larger
/// set.
pub proof fn lemma_mark_one_more(grid: Grid, n: usize, done: Set<Position>, p: Position)
    requires
        square(grid, n),
        on_board(n, p),
    ensures
        with_color(marked(grid, done), p, captured_marker(color_at(marked(grid, done), p)))
            == marked(grid, done.insert(p)),
{
    let was = marked(grid, done);
    let now = with_color(was, p, captured_marker(color_at(was, p)));
    let goal = marked(grid, done.insert(p));
    assert forall|r: int| 0 <= r < n implies #[trigger] now[r] =~= goal[r] by {
        assert(grid[r].len() == n);
        assert forall|c: int| 0 <= c < n implies now[r][c] == goal[r][c] by {
            let q = (r as usize, c as usize);
            assert(done.insert(p).contains(q) <==> done.contains(q) || q == p);
        }
    }
    assert(now =~= goal);
}

/// The chain `k` is registered and its cached liberty list is empty.
pub open spec fn is_doomed(
    chains: Map<u128, Seq<Position>>,
    liberties: Map<u128, Seq<Position>>,
    k: u128,
) -> bool {
    liberties.contains_key(k) && liberties[k].len() == 0 && chains.contains_key(k)
}

/// The chains to capture: those whose cached liberty list is empty.
pub open spec fn doomed(
    chains: Map<u128, Seq<Position>>,
    liberties: Map<u128, Seq<Position>>,
) -> Set<u128> {
    Set::new(|k: u128| is_doomed(chains, liberties, k))
}

/// `p` is a member of one of the chains registered under `keys`.
pub open spec fn in_chains(chains: Map<u128, Seq<Position>>, keys: Set<u128>, p: Position) -> bool {
    exists|k: u128| keys.contains(k) && chains.contains_key(k) && #[trigger] chains[k].contains(p)
}

/// The stones of the chains registered under `keys`.
pub open spec fn members_of(chains: Map<u128, Seq<Position>>, keys: Set<u128>) -> Set<Position> {
    Set::new(|p: Position| in_chains(chains, keys, p))
}

/// One more chain adds its members to the stones of a set of chains.
pub proof fn lemma_members_of_insert(chains: Map<u128, Seq<Position>>, keys: Set<u128>, k: u128)
    requires
        chains.contains_key(k),
    ensures
        members_of(chains, keys.insert(k)) == members_of(chains, keys) + chains[k].to_set(),
{
    let more = keys.insert(k);
    assert forall|p: Position|
        members_of(chains, more).contains(p) <==> members_of(chains, keys).contains(p)
            || chains[k].to_set().contains(p) by {
        if in_chains(chains, more, p) {
            let w = choose|w: u128|
                more.contains(w) && chains.contains_key(w) && #[trigger] chains[w].contains(p);
            if w != k {
                assert(keys.contains(w));
                assert(in_chains(chains, keys, p));
            }
        }
        if in_chains(chains, keys, p) {
            let w = choose|w: u128|
                keys.contains(w) && chains.contains_key(w) && #[trigger] chains[w].contains(p);
            assert(more.contains(w));
            assert(in_chains(chains, more, p));
        }
        if chains[k].contains(p) {
            assert(more.contains(k));
            assert(in_chains(chains, more, p));
        }
    }
    assert(members_of(chains, more) =~= members_of(chains, keys) + chains[k].to_set());
}

/// The chain labels of the neighbours of `p` that hold `color`.
pub open spec fn friend_ids(grid: Grid, n: usize, p: Position, color: u8) -> Seq<u128> {
    labels_of(grid, adjacent_of_color(grid, n, p, color))
}

/// The stones that a stone of `color` put at `p` joins: the members of the
/// chains of its neighbours of that colour.
pub open spec fn joined(
    grid: Grid,
    n: usize,
    chains: Map<u128, Seq<Position>>,
    p: Position,
    color: u8,
) -> Seq<Position> {
    merged_members(chains, friend_ids(grid, n, p, color))
}

/// The board once a stone of `color` stands at `p` and the chains it
/// joins carry its label.
pub open spec fn grid_after_merge(
    grid: Grid,
    n: usize,
    chains: Map<u128, Seq<Position>>,
    p: Position,
    color: u8,
) -> Grid {
    relabelled(with_color(grid, p, color), joined(grid, n, chains, p, color).to_set(), chain_at(grid, p))
}

/// The mover's chains once the new stone and the chains it joins are one
/// chain, registered under the identifier of the new stone.
pub open spec fn chains_after_merge(
    grid: Grid,
    n: usize,
    chains: Map<u128, Seq<Position>>,
    p: Position,
    color: u8,
) -> Map<u128, Seq<Position>> {
    chains.remove_keys(friend_ids(grid, n, p, color).to_set()).insert(
        id_of(p.0, p.1),
        seq![p] + joined(grid, n, chains, p, color),
    )
}

/// The registered chains that have no liberty on `grid`.
pub open spec fn smothered(grid: Grid, n: usize, chains: Map<u128, Seq<Position>>) -> Set<u128> {
    Set::new(|k: u128| chains.contains_key(k) && !has_liberty(grid, n, chains[k]))
}

/// The board once every chain without a liberty has been captured.
pub open spec fn grid_after_capture(grid: Grid, n: usize, chains: Map<u128, Seq<Position>>) -> Grid {
    marked(grid, members_of(chains, smothered(grid, n, chains)))
}

/// A stone of `color` may be put at `p`: it is that side's turn, the
/// intersection is vacant, and the stone would not form a group without a
/// liberty. Liberties are counted before the captures that the stone would
/// make, so a stone that fills its own last liberty is refused even where
/// it would capture.
pub open spec fn legal_move(grid: Grid, n: usize, is_white_turn: bool, color: u8, p: Position) -> bool {
    &&& color == side_to_move(is_white_turn)
    &&& color_at(grid, p) == EMPTY
    &&& !self_capture(grid, n, p, color)
}

/// Recolouring `p` changes no label and no other colour.
pub proof fn lemma_with_color(grid: Grid, n: usize, p: Position, color: u8)
    requires
        square(grid, n),
        on_board(n, p),
    ensures
        square(with_color(grid, p, color), n),
        color_at(with_color(grid, p, color), p) == color,
        forall|q: Position|
            on_board(n, q) ==> chain_at(#[trigger] with_color(grid, p, color), q) == chain_at(grid, q),
        forall|q: Position|
            on_board(n, q) && q != p ==> color_at(#[trigger] with_color(grid, p, color), q)
                == color_at(grid, q),
{
    let after = with_color(grid, p, color);
    assert(grid[p.0 as int].len() == n);
    assert forall|r: int| 0 <= r < n implies (#[trigger] after[r]).len() == n by {
        assert(grid[r].len() == n);
    }
    assert forall|r: int, c: int| 0 <= r < n && 0 <= c < n implies (#[trigger] after[r][c]).row == r
        && after[r][c].col == c by {
        assert(grid[r].len() == n);
        assert(grid[r][c].row == r);
    }
}

/// The neighbours of `p` of a given colour, and their labels, do not depend
/// on what stands at `p` itself.
pub proof fn lemma_with_color_neighbours(grid: Grid, n: usize, p: Position, color: u8, wanted: u8)
    requires
        square(grid, n),
        on_board(n, p),
    ensures
        adjacent_of_color(with_color(grid, p, color), n, p, wanted) == adjacent_of_color(
            grid,
            n,
            p,
            wanted,
        ),
        labels_of(with_color(grid, p, color), adjacent_of_color(grid, n, p, wanted)) == labels_of(
            grid,
            adjacent_of_color(grid, n, p, wanted),
        ),
{
    let after = with_color(grid, p, color);
    lemma_with_color(grid, n, p, color);
    lemma_adjacent_of_color(grid, n, p, wanted);
    let left = ((p.0, (p.1 - 1) as usize));
    let right = ((p.0, (p.1 + 1) as usize));
    let up = (((p.0 - 1) as usize, p.1));
    let down = (((p.0 + 1) as usize, p.1));
    if p.1 != 0 {
        assert(color_at(after, left) == color_at(grid, left));
    }
    if p.1 + 1 < n {
        assert(color_at(after, right) == color_at(grid, right));
    }
    if p.0 != 0 {
        assert(color_at(after, up) == color_at(grid, up));
    }
    if p.0 + 1 < n {
        assert(color_at(after, down) == color_at(grid, down));
    }
    let near = adjacent_of_color(grid, n, p, wanted);
    assert forall|i: int| 0 <= i < near.len() implies chain_at(after, near[i]) == chain_at(
        grid,
        near[i],
    ) by {
        assert(near.contains(near[i]));
    }
    assert(labels_of(after, near) =~= labels_of(grid, near));
}

/// The chain registered under `k` is a chain of `color` on the board: it
/// starts with the stone that `k` was generated from, lists no stone twice,
/// and each of its stones lies on the board, has that colour and is
/// labelled `k`.
pub open spec fn chain_tracked(
    grid: Grid,
    n: usize,
    k: u128,
    members: Seq<Position>,
    color: u8,
) -> bool {
    &&& members.len() > 0
    &&& k == id_of(members[0].0, members[0].1)
    &&& members.no_duplicates()
    &&& forall|i: int|
        0 <= i < members.len() ==> on_board(n, #[trigger] members[i]) && color_at(grid, members[i])
            == color && chain_at(grid, members[i]) == k
}

/// Every registered chain is a chain of `color` on the board.
pub open spec fn chains_tracked(
    grid: Grid,
    n: usize,
    chains: Map<u128, Seq<Position>>,
    color: u8,
) -> bool {
    forall|k: u128| #[trigger] chains.contains_key(k) ==> chain_tracked(grid, n, k, chains[k], color)
}

/// Every stone of `color` on the board is a member of the chain that it is
/// labelled with.
pub open spec fn stones_registered(
    grid: Grid,
    n: usize,
    chains: Map<u128, Seq<Position>>,
    color: u8,
) -> bool {
    forall|p: Position|
        on_board(n, p) && #[trigger] color_at(grid, p) == color ==> chains.contains_key(
            chain_at(grid, p),
        ) && chains[chain_at(grid, p)].contains(p)
}

/// Neighbouring stones of `color` carry the same chain label.
pub open spec fn neighbours_agree(grid: Grid, n: usize, color: u8) -> bool {
    forall|p: Position, q: Position|
        on_board(n, p) && on_board(n, q) && #[trigger] adjacent(p, q) && color_at(grid, p) == color
            && color_at(grid, q) == color ==> chain_at(grid, p) == chain_at(grid, q)
}

/// `path` walks through `stones` from neighbour to neighbour.
pub open spec fn is_path(stones: Set<Position>, path: Seq<Position>) -> bool {
    &&& path.len() > 0
    &&& forall|i: int| 0 <= i < path.len() ==> stones.contains(#[trigger] path[i])
    &&& forall|i: int| 0 <= i < path.len() - 1 ==> adjacent(#[trigger] path[i], path[i + 1])
}

/// A path through `stones` leads from `a` to `b`.
pub open spec fn linked(stones: Set<Position>, a: Position, b: Position) -> bool {
    exists|path: Seq<Position>| #[trigger] is_path(stones, path) && path[0] == a && path.last() == b
}

/// Any two of the `stones` are linked by a path through them.
pub open spec fn connected(stones: Set<Position>) -> bool {
    forall|a: Position, b: Position|
        stones.contains(a) && stones.contains(b) ==> #[trigger] linked(stones, a, b)
}

/// The stones of every registered chain are connected.
pub open spec fn chains_connected(chains: Map<u128, Seq<Position>>) -> bool {
    forall|k: u128| #[trigger] chains.contains_key(k) ==> connected(chains[k].to_set())
}

/// Every registered chain has a liberty.
pub open spec fn chains_alive(grid: Grid, n: usize, chains: Map<u128, Seq<Position>>) -> bool {
    forall|k: u128| #[trigger] chains.contains_key(k) ==> has_liberty(grid, n, chains[k])
}

/// Liberties are cached for registered chains only, and no cached list
/// names a liberty twice.
pub open spec fn cache_sound(
    chains: Map<u128, Seq<Position>>,
    liberties: Map<u128, Seq<Position>>,
) -> bool {
    forall|k: u128| #[trigger]
        liberties.contains_key(k) ==> chains.contains_key(k) && liberties[k].no_duplicates()
}

/// The registry of the side that plays `color` agrees with the board: its
/// chains are exactly the maximal connected groups of that colour, and
/// each has a liberty.
pub open spec fn side_sound(
    grid: Grid,
    n: usize,
    chains: Map<u128, Seq<Position>>,
    liberties: Map<u128, Seq<Position>>,
    color: u8,
) -> bool {
    &&& chains_tracked(grid, n, chains, color)
    &&& stones_registered(grid, n, chains, color)
    &&& neighbours_agree(grid, n, color)
    &&& chains_connected(chains)
    &&& chains_alive(grid, n, chains)
    &&& cache_sound(chains, liberties)
}

/// Every vacant intersection is labelled with its own identifier.
pub open spec fn vacant_labelled(grid: Grid, n: usize) -> bool {
    forall|p: Position|
        on_board(n, p) && #[trigger] color_at(grid, p) == EMPTY ==> chain_at(grid, p) == id_of(
            p.0,
            p.1,
        )
}

/// The intersections of the board that hold `color`.
pub open spec fn cells_of_color(grid: Grid, n: usize, color: u8) -> Set<Position> {
    Set::new(|p: Position| on_board(n, p) && color_at(grid, p) == color)
}

/// What holds of every intersection once a stone of `color` stands at the
/// vacant `p` and the chains it joins are relabelled.
pub proof fn lemma_cells_after_merge(
    grid: Grid,
    n: usize,
    chains: Map<u128, Seq<Position>>,
    p: Position,
    color: u8,
)
    requires
        square(grid, n),
        on_board(n, p),
    ensures
        square(grid_after_merge(grid, n, chains, p, color), n),
        forall|q: Position|
            on_board(n, q) ==> #[trigger] color_at(grid_after_merge(grid, n, chains, p, color), q)
                == (if q == p {
                color
            } else {
                color_at(grid, q)
            }),
        forall|q: Position|
            on_board(n, q) ==> #[trigger] chain_at(grid_after_merge(grid, n, chains, p, color), q)
                == (if joined(grid, n, chains, p, color).contains(q) {
                chain_at(grid, p)
            } else {
                chain_at(grid, q)
            }),
{
    let stoned = with_color(grid, p, color);
    let folded = joined(grid, n, chains, p, color).to_set();
    let after = grid_after_merge(grid, n, chains, p, color);
    lemma_with_color(grid, n, p, color);
    lemma_relabelled_square(stoned, n, folded, chain_at(grid, p));
    assert forall|q: Position| on_board(n, q) implies #[trigger] color_at(after, q) == (if q == p {
        color
    } else {
        color_at(grid, q)
    }) && #[trigger] chain_at(after, q) == (if joined(grid, n, chains, p, color).contains(q) {
        chain_at(grid, p)
    } else {
        chain_at(grid, q)
    }) by {
        assert(stoned[q.0 as int].len() == n);
        assert((q.0 as int as usize, q.1 as int as usize) == q);
        assert(chain_at(stoned, q) == chain_at(grid, q));
    }
}

/// Putting a stone and relabelling chains moves no territory marker.
pub proof fn lemma_markers_after_merge(
    grid: Grid,
    n: usize,
    chains: Map<u128, Seq<Position>>,
    p: Position,
    color: u8,
)
    requires
        square(grid, n),
        on_board(n, p),
        color_at(grid, p) == EMPTY,
    ensures
        forall|marker: u8|
            marker != EMPTY && marker != color ==> cells_of_color(
                grid_after_merge(grid, n, chains, p, color),
                n,
                marker,
            ) == cells_of_color(grid, n, marker),
{
    let after = grid_after_merge(grid, n, chains, p, color);
    lemma_cells_after_merge(grid, n, chains, p, color);
    assert forall|marker: u8| marker != EMPTY && marker != color implies cells_of_color(
        after,
        n,
        marker,
    ) == cells_of_color(grid, n, marker) by {
        assert(cells_of_color(after, n, marker) =~= cells_of_color(grid, n, marker));
    }
}

/// The opponent's chains are tracked as before once the mover's stone
/// stands and the mover's chains are relabelled.
pub proof fn lemma_tracked_after_merge(
    grid: Grid,
    n: usize,
    chains: Map<u128, Seq<Position>>,
    others: Map<u128, Seq<Position>>,
    p: Position,
    color: u8,
    enemy: u8,
)
    requires
        square(grid, n),
        on_board(n, p),
        color_at(grid, p) == EMPTY,
        color != enemy,
        enemy != EMPTY,
        chains_tracked(grid, n, chains, color),
        chains_tracked(grid, n, others, enemy),
    ensures
        chains_tracked(grid_after_merge(grid, n, chains, p, color), n, others, enemy),
{
    let after = grid_after_merge(grid, n, chains, p, color);
    let ids = friend_ids(grid, n, p, color);
    lemma_cells_after_merge(grid, n, chains, p, color);
    assert forall|k: u128| #[trigger] others.contains_key(k) implies chain_tracked(
        after,
        n,
        k,
        others[k],
        enemy,
    ) by {
        assert(chain_tracked(grid, n, k, others[k], enemy));
        assert forall|i: int| 0 <= i < others[k].len() implies on_board(n, #[trigger] others[k][i])
            && color_at(after, others[k][i]) == enemy && chain_at(after, others[k][i]) == k by {
            let q = others[k][i];
            lemma_merged_members(chains, ids, q);
            if joined(grid, n, chains, p, color).contains(q) {
                let j = choose|j: int|
                    0 <= j < ids.len() && chains.contains_key(#[trigger] ids[j])
                        && chains[ids[j]].contains(q);
                assert(chain_tracked(grid, n, ids[j], chains[ids[j]], color));
                let t = choose|t: int| 0 <= t < chains[ids[j]].len() && chains[ids[j]][t] == q;
                assert(color_at(grid, chains[ids[j]][t]) == color);
            }
        }
    }
}

} // verus!
