//! How many intersections a set of positions can hold, and what a capture
//! does to the number of territory markers.

use vstd::prelude::*;
use vstd::set_lib::{lemma_len_subset, lemma_set_disjoint_lens};
use crate::game::{BLACK, WHITE};
use crate::rules::{
    captured_marker, cells_of_color, chains_tracked, color_at, marked, members_of, on_board,
    square, Grid, Position,
};

verus! {

/// The positions of row `r` in the first `cols` columns.
pub open spec fn cells_in_row(r: usize, cols: int) -> Set<Position> {
    Set::new(|p: Position| p.0 == r && p.1 < cols)
}

/// The positions of the first `rows` rows of a board with `n` columns.
pub open spec fn cells_below(n: usize, rows: int) -> Set<Position> {
    Set::new(|p: Position| p.0 < rows && p.1 < n)
}

/// A row of `cols` positions is finite and has `cols` elements.
pub proof fn lemma_cells_in_row(r: usize, cols: int)
    requires
        0 <= cols <= usize::MAX,
    ensures
        cells_in_row(r, cols).finite(),
        cells_in_row(r, cols).len() == cols,
    decreases cols,
{
    if cols == 0 {
        assert(cells_in_row(r, cols) =~= Set::<Position>::empty());
    } else {
        lemma_cells_in_row(r, cols - 1);
        assert(cells_in_row(r, cols) =~= cells_in_row(r, cols - 1).insert(
            (r, (cols - 1) as usize),
        ));
    }
}

/// The first `rows` rows of a board with `n` columns hold `rows * n`
/// positions.
pub proof fn lemma_cells_below(n: usize, rows: int)
    requires
        0 <= rows <= n,
    ensures
        cells_below(n, rows).finite(),
        cells_below(n, rows).len() == rows * n,
    decreases rows,
{
    if rows == 0 {
        assert(cells_below(n, rows) =~= Set::<Position>::empty());
    } else {
        lemma_cells_below(n, rows - 1);
        lemma_cells_in_row((rows - 1) as usize, n as int);
        let lower = cells_below(n, rows - 1);
        let top = cells_in_row((rows - 1) as usize, n as int);
        assert(cells_below(n, rows) =~= lower + top);
        assert(lower.disjoint(top));
        lemma_set_disjoint_lens(lower, top);
        assert(rows * n == (rows - 1) * n + n) by (nonlinear_arith);
    }
}

/// A set of positions of an `n` by `n` board is finite and has at most
/// `n * n` elements.
pub proof fn lemma_on_board_bound(n: usize, stones: Set<Position>)
    requires
        forall|p: Position| stones.contains(p) ==> on_board(n, p),
    ensures
        stones.finite(),
        stones.len() <= n * n,
{
    lemma_cells_below(n, n as int);
    assert(stones.subset_of(cells_below(n, n as int)));
    lemma_len_subset(stones, cells_below(n, n as int));
}

/// Two distinct chains of a tracked registry share no stone.
pub proof fn lemma_chains_apart(
    grid: Grid,
    n: usize,
    chains: Map<u128, Seq<Position>>,
    color: u8,
    a: u128,
    b: u128,
    p: Position,
)
    requires
        chains_tracked(grid, n, chains, color),
        chains.contains_key(a),
        chains.contains_key(b),
        chains[a].contains(p),
        chains[b].contains(p),
    ensures
        a == b,
{
    let i = choose|i: int| 0 <= i < chains[a].len() && chains[a][i] == p;
    let j = choose|j: int| 0 <= j < chains[b].len() && chains[b][j] == p;
    assert(on_board(n, chains[a][i]));
    assert(on_board(n, chains[b][j]));
}

/// The stones of tracked chains lie on the board and have the chains'
/// colour.
pub proof fn lemma_members_tracked(
    grid: Grid,
    n: usize,
    chains: Map<u128, Seq<Position>>,
    color: u8,
    keys: Set<u128>,
)
    requires
        chains_tracked(grid, n, chains, color),
    ensures
        forall|p: Position| #[trigger]
            members_of(chains, keys).contains(p) ==> on_board(n, p) && color_at(grid, p) == color,
        members_of(chains, keys).finite(),
        members_of(chains, keys).len() <= n * n,
{
    let stones = members_of(chains, keys);
    assert forall|p: Position| #[trigger] stones.contains(p) implies on_board(n, p) && color_at(
        grid,
        p,
    ) == color by {
        let k = choose|k: u128|
            keys.contains(k) && chains.contains_key(k) && #[trigger] chains[k].contains(p);
        let i = choose|i: int| 0 <= i < chains[k].len() && chains[k][i] == p;
        assert(on_board(n, chains[k][i]));
    }
    lemma_on_board_bound(n, stones);
}

/// Capturing stones of one colour adds them to the territory markers of
/// the other side and leaves every other colour where it was.
pub proof fn lemma_capture_tally(grid: Grid, n: usize, taken: Set<Position>, color: u8)
    requires
        square(grid, n),
        color == WHITE || color == BLACK,
        forall|p: Position| taken.contains(p) ==> on_board(n, p) && color_at(grid, p) == color,
    ensures
        cells_of_color(marked(grid, taken), n, captured_marker(color)) == cells_of_color(
            grid,
            n,
            captured_marker(color),
        ) + taken,
        cells_of_color(grid, n, captured_marker(color)).disjoint(taken),
        forall|other: u8|
            other != color && other != captured_marker(color) ==> cells_of_color(
                marked(grid, taken),
                n,
                other,
            ) == cells_of_color(grid, n, other),
        cells_of_color(marked(grid, taken), n, color) == cells_of_color(grid, n, color) - taken,
{
    let after = marked(grid, taken);
    assert forall|p: Position| on_board(n, p) implies color_at(after, p) == (if taken.contains(p) {
        captured_marker(color)
    } else {
        color_at(grid, p)
    }) by {
        assert(grid[p.0 as int].len() == n);
        assert((p.0 as int as usize, p.1 as int as usize) == p);
    }
    assert(cells_of_color(after, n, captured_marker(color)) =~= cells_of_color(
        grid,
        n,
        captured_marker(color),
    ) + taken);
    assert(cells_of_color(after, n, color) =~= cells_of_color(grid, n, color) - taken);
    assert forall|other: u8| other != color && other != captured_marker(color) implies cells_of_color(
        after,
        n,
        other,
    ) == cells_of_color(grid, n, other) by {
        assert(cells_of_color(after, n, other) =~= cells_of_color(grid, n, other));
    }
}

} // verus!
