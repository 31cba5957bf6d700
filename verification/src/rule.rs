use vstd::prelude::*;
use crate::game_of_life::GameOfLife;
use crate::matrix::{Matrix, grid_of, is_grid, lemma_grid_cells, lemma_index_join};

verus! {

/// Which cells count as the neighbours of a cell at the edge of the grid.
#[derive(Clone, Copy, Debug, PartialEq, Eq, Structural)]
pub enum BoundaryPolicy {
    /// Nothing lies beyond an edge: a cell there has fewer than 8 neighbours.
    Terminating,
    /// Each edge continues at the opposite edge: every cell has 8 neighbours.
    Toroidal,
}

/// Whether every cell of the grid is dead.
pub open spec fn all_dead(g: Seq<Seq<u8>>) -> bool {
    forall|r: int, c: int| 0 <= r < g.len() && 0 <= c < g[0].len() ==> #[trigger] g[r][c] == 0
}

/// The steps from a cell to the 8 cells of its Moore neighbourhood, each as
/// a change of row and of column, in the order in which they are counted.
pub open spec fn moore_offsets() -> Seq<(int, int)> {
    seq![(1, 1), (-1, -1), (1, -1), (-1, 1), (0, 1), (0, -1), (1, 0), (-1, 0)]
}

impl BoundaryPolicy {
    /// Where position `x` lies on an axis of `len` positions: itself where
    /// it is on the axis; off it, nowhere when terminating, and wrapped
    /// round when toroidal.
    pub open spec fn resolve_axis(self, len: int, x: int) -> Option<int> {
        match self {
            BoundaryPolicy::Terminating => if 0 <= x < len {
                Some(x)
            } else {
                None
            },
            BoundaryPolicy::Toroidal => Some((x + len) % len),
        }
    }

    /// The cell that stands at row `r` and column `c` of a grid of `rows` by
    /// `cols`, if any.
    pub open spec fn resolve(self, rows: int, cols: int, r: int, c: int) -> Option<(int, int)> {
        match (self.resolve_axis(rows, r), self.resolve_axis(cols, c)) {
            (Some(rr), Some(cc)) => Some((rr, cc)),
            _ => None,
        }
    }

    /// The function from a step to the neighbour of `(row, col)` that it
    /// leads to, if any.
    pub open spec fn neighbor_of(self, rows: int, cols: int, row: int, col: int) -> spec_fn(
        (int, int),
    ) -> Option<(int, int)> {
        |d: (int, int)| self.resolve(rows, cols, row + d.0, col + d.1)
    }

    /// The coordinates of the neighbours of `(row, col)`, in the order of
    /// `moore_offsets`. A coordinate occurs as often as steps lead to it.
    pub open spec fn neighbors(self, rows: int, cols: int, row: int, col: int) -> Seq<(int, int)> {
        moore_offsets().filter_map(self.neighbor_of(rows, cols, row, col))
    }

    /// The neighbour that the `k`-th step leads to, as a sequence of one
    /// coordinate or of none.
    pub open spec fn neighbor_at(self, rows: int, cols: int, row: int, col: int, k: int) -> Seq<
        (int, int),
    > {
        match self.neighbor_of(rows, cols, row, col)(moore_offsets()[k]) {
            Some(p) => seq![p],
            None => Seq::empty(),
        }
    }
}

/// Coordinates of cells as pairs of integers.
pub open spec fn coordinates(coords: Seq<(usize, usize)>) -> Seq<(int, int)> {
    coords.map_values(|p: (usize, usize)| (p.0 as int, p.1 as int))
}

/// Whether the cell at a coordinate of `g` is alive.
pub open spec fn alive_in(g: Seq<Seq<u8>>) -> spec_fn((int, int)) -> bool {
    |p: (int, int)| g[p.0][p.1] == 1
}

/// The number of neighbours of `(row, col)` that are alive.
#[verifier::opaque]
pub open spec fn live_neighbors(
    g: Seq<Seq<u8>>,
    policy: BoundaryPolicy,
    row: int,
    col: int,
) -> nat {
    policy.neighbors(g.len() as int, g[0].len() as int, row, col).filter(alive_in(g)).len()
}

/// The next state of a cell by its own state and the number of its live
/// neighbours: a live cell lives on with 2 or 3, a dead cell comes alive
/// with exactly 3.
pub open spec fn rule(alive: bool, live_neighbors: nat) -> u8 {
    if alive {
        if live_neighbors == 2 || live_neighbors == 3 {
            1
        } else {
            0
        }
    } else {
        if live_neighbors == 3 {
            1
        } else {
            0
        }
    }
}

/// The state of the cell at `(row, col)` in the next generation.
pub open spec fn next_cell(g: Seq<Seq<u8>>, policy: BoundaryPolicy, row: int, col: int) -> u8 {
    rule(g[row][col] == 1, live_neighbors(g, policy, row, col))
}

/// The next generation of a grid: every cell replaced by its next state.
pub open spec fn next_generation(g: Seq<Seq<u8>>, policy: BoundaryPolicy) -> Seq<Seq<u8>> {
    Seq::new(g.len(), |r: int| Seq::new(g[0].len(), |c: int| next_cell(g, policy, r, c)))
}

/// The cells of the next generation in storage order: row after row.
pub open spec fn next_cells(g: Seq<Seq<u8>>, policy: BoundaryPolicy) -> Seq<u8> {
    Seq::new(
        (g.len() * g[0].len()) as nat,
        |i: int| next_cell(g, policy, i / (g[0].len() as int), i % (g[0].len() as int)),
    )
}

/// The grid after `n` generations.
pub open spec fn generation(g: Seq<Seq<u8>>, policy: BoundaryPolicy, n: nat) -> Seq<Seq<u8>>
    decreases n,
{
    if n == 0 {
        g
    } else {
        next_generation(generation(g, policy, (n - 1) as nat), policy)
    }
}

/// The position that `x`, at most one step off an axis of `len` positions,
/// wraps to: one before the start is the last position, one past the end is
/// the first.
#[verifier::opaque]
pub open spec fn wrapped(len: int, x: int) -> int {
    if x == -1 {
        len - 1
    } else if x == len {
        0
    } else {
        x
    }
}

/// 1 where the cell at `(r, c)` is alive, else 0.
#[verifier::opaque]
pub open spec fn live_bit(g: Seq<Seq<u8>>, r: int, c: int) -> nat {
    if g[r][c] == 1 {
        1
    } else {
        0
    }
}

/// What the coordinate `(r, c)`, one step from a cell, adds to that cell's
/// count of live neighbours: 1 where a live cell stands there, else 0.
#[verifier::opaque]
pub open spec fn counts(g: Seq<Seq<u8>>, policy: BoundaryPolicy, r: int, c: int) -> nat {
    match policy.resolve(g.len() as int, g[0].len() as int, r, c) {
        Some(p) => if g[p.0][p.1] == 1 {
            1
        } else {
            0
        },
        None => 0,
    }
}

impl BoundaryPolicy {
    /// The position one step `d` from `at` on an axis of `len` positions,
    /// if the policy has one there.
    fn step(self, len: usize, at: usize, d: i8) -> (to: Option<usize>)
        requires
            at < len,
            -1 <= d <= 1,
        ensures
            match to {
                Some(x) => self.resolve_axis(len as int, at + d) == Some(x as int) && x < len,
                None => self.resolve_axis(len as int, at + d) is None,
            },
    {
        proof {
            lemma_wrap(len as int, at + d);
            reveal(wrapped);
        }
        if d == 0 {
            Some(at)
        } else if d == 1 {
            if at < len - 1 {
                Some(at + 1)
            } else {
                match self {
                    BoundaryPolicy::Terminating => None,
                    BoundaryPolicy::Toroidal => Some(0),
                }
            }
        } else {
            if at > 0 {
                Some(at - 1)
            } else {
                match self {
                    BoundaryPolicy::Terminating => None,
                    BoundaryPolicy::Toroidal => Some(len - 1),
                }
            }
        }
    }

    /// Appends to `coords` the neighbour of `(row, col)` that the `k`-th
    /// step, by `dr` rows and `dc` columns, leads to, if any.
    fn push_neighbor(
        self,
        coords: &mut Vec<(usize, usize)>,
        rows: usize,
        cols: usize,
        row: usize,
        col: usize,
        dr: i8,
        dc: i8,
        Ghost(k): Ghost<int>,
    )
        requires
            row < rows,
            col < cols,
            0 <= k < 8,
            moore_offsets()[k] == (dr as int, dc as int),
        ensures
            coordinates(final(coords)@) == coordinates(old(coords)@) + self.neighbor_at(
                rows as int,
                cols as int,
                row as int,
                col as int,
                k,
            ),
    {
        let ghost before = coords@;
        match (self.step(rows, row, dr), self.step(cols, col, dc)) {
            (Some(r), Some(c)) => {
                coords.push((r, c));
                proof {
                    assert(coordinates(coords@) =~= coordinates(before) + seq![
                        (r as int, c as int),
                    ]);
                }
            },
            _ => {
                proof {
                    assert(coordinates(coords@) =~= coordinates(before) + Seq::<
                        (int, int),
                    >::empty());
                }
            },
        }
    }

    /// The coordinates of the neighbours of the cell at `(row, col)` of a
    /// grid of `rows` by `cols`: what the 8 steps of the Moore
    /// neighbourhood lead to, in their order. Under the toroidal policy
    /// these are 8; under the terminating policy, those on the grid.
    pub fn neighbor_coordinates(self, rows: usize, cols: usize, row: usize, col: usize) -> (coords:
        Vec<(usize, usize)>)
        requires
            row < rows,
            col < cols,
        ensures
            coordinates(coords@) == self.neighbors(
                rows as int,
                cols as int,
                row as int,
                col as int,
            ),
    {
        let mut coords: Vec<(usize, usize)> = Vec::new();
        proof {
            assert(coordinates(coords@) =~= Seq::<(int, int)>::empty());
            lemma_neighbors_unfold(self, rows as int, cols as int, row as int, col as int);
        }
        self.push_neighbor(&mut coords, rows, cols, row, col, 1, 1, Ghost(0));
        self.push_neighbor(&mut coords, rows, cols, row, col, -1, -1, Ghost(1));
        self.push_neighbor(&mut coords, rows, cols, row, col, 1, -1, Ghost(2));
        self.push_neighbor(&mut coords, rows, cols, row, col, -1, 1, Ghost(3));
        self.push_neighbor(&mut coords, rows, cols, row, col, 0, 1, Ghost(4));
        self.push_neighbor(&mut coords, rows, cols, row, col, 0, -1, Ghost(5));
        self.push_neighbor(&mut coords, rows, cols, row, col, 1, 0, Ghost(6));
        self.push_neighbor(&mut coords, rows, cols, row, col, -1, 0, Ghost(7));
        proof {
            let e = Seq::<(int, int)>::empty();
            assert(e + self.neighbor_at(rows as int, cols as int, row as int, col as int, 0)
                =~= self.neighbor_at(rows as int, cols as int, row as int, col as int, 0));
        }
        coords
    }
}

/// The next state of the cell at `(row, col)` of `grid`, which is only
/// read.
pub fn next_state(grid: &Matrix, row: usize, col: usize, policy: BoundaryPolicy) -> (cell: u8)
    requires
        grid.wf(),
        row < grid.rows,
        col < grid.cols,
    ensures
        cell == next_cell(grid@, policy, row as int, col as int),
        cell <= 1,
{
    proof {
        lemma_index_join(grid.rows as int, grid.cols as int, row as int, col as int);
    }
    let idx = grid.idx(row, col);
    let mut cell: u8 = 0;
    GameOfLife::write_next_tick_state(policy, grid, idx, &mut cell);
    cell
}

/// A position on the axis wraps to itself.
pub proof fn lemma_wrapped_inside(len: int, x: int)
    requires
        0 <= x < len,
    ensures
        wrapped(len, x) == x,
{
    reveal(wrapped);
}

/// Wrapping by remainder and wrapping by cases agree.
pub proof fn lemma_wrap(len: int, x: int)
    requires
        0 < len,
        -1 <= x <= len,
    ensures
        (x + len) % len == wrapped(len, x),
        0 <= wrapped(len, x) < len,
{
    reveal(wrapped);
    if x == -1 {
        vstd::arithmetic::div_mod::lemma_fundamental_div_mod_converse(x + len, len, 0, len - 1);
    } else if x == len {
        vstd::arithmetic::div_mod::lemma_fundamental_div_mod_converse(x + len, len, 2, 0);
    } else {
        vstd::arithmetic::div_mod::lemma_fundamental_div_mod_converse(x + len, len, 1, x);
    }
}

/// The neighbours of a cell are what the 8 steps lead to, one after the
/// other.
pub proof fn lemma_neighbors_unfold(
    policy: BoundaryPolicy,
    rows: int,
    cols: int,
    row: int,
    col: int,
)
    ensures
        policy.neighbors(rows, cols, row, col) == policy.neighbor_at(rows, cols, row, col, 0)
            + policy.neighbor_at(rows, cols, row, col, 1)
            + policy.neighbor_at(rows, cols, row, col, 2)
            + policy.neighbor_at(rows, cols, row, col, 3)
            + policy.neighbor_at(rows, cols, row, col, 4)
            + policy.neighbor_at(rows, cols, row, col, 5)
            + policy.neighbor_at(rows, cols, row, col, 6)
            + policy.neighbor_at(rows, cols, row, col, 7),
{
    let offsets = moore_offsets();
    let f = policy.neighbor_of(rows, cols, row, col);
    assert(offsets.take(0).filter_map(f) =~= Seq::empty());
    offsets.lemma_filter_map_take_succ(f, 0);
    offsets.lemma_filter_map_take_succ(f, 1);
    offsets.lemma_filter_map_take_succ(f, 2);
    offsets.lemma_filter_map_take_succ(f, 3);
    offsets.lemma_filter_map_take_succ(f, 4);
    offsets.lemma_filter_map_take_succ(f, 5);
    offsets.lemma_filter_map_take_succ(f, 6);
    offsets.lemma_filter_map_take_succ(f, 7);
    assert(offsets.take(8) =~= offsets);
}

/// A cell adds at most 1 to a count.
pub proof fn lemma_live_bit_bound(g: Seq<Seq<u8>>, r: int, c: int)
    ensures
        live_bit(g, r, c) <= 1,
        live_bit(g, r, c) == 1 <==> g[r][c] == 1,
{
    reveal(live_bit);
}

/// Where nothing lies beyond the edges, a coordinate on the grid counts if
/// the cell there is alive.
pub proof fn lemma_counts_inside(g: Seq<Seq<u8>>, r: int, c: int)
    requires
        0 <= r < g.len(),
        0 <= c < g[0].len(),
    ensures
        counts(g, BoundaryPolicy::Terminating, r, c) == live_bit(g, r, c),
{
    reveal(counts);
    reveal(live_bit);
}

/// Where nothing lies beyond the edges, a coordinate off the grid does not
/// count.
pub proof fn lemma_counts_outside(g: Seq<Seq<u8>>, r: int, c: int)
    requires
        !(0 <= r < g.len() && 0 <= c < g[0].len()),
    ensures
        counts(g, BoundaryPolicy::Terminating, r, c) == 0,
{
    reveal(counts);
}

/// Where the edges wrap, a coordinate at most one step off the grid counts
/// if the cell that it wraps to is alive.
pub proof fn lemma_counts_toroidal(g: Seq<Seq<u8>>, r: int, c: int)
    requires
        0 < g.len(),
        0 < g[0].len(),
        -1 <= r <= g.len(),
        -1 <= c <= g[0].len(),
    ensures
        counts(g, BoundaryPolicy::Toroidal, r, c) == live_bit(
            g,
            wrapped(g.len() as int, r),
            wrapped(g[0].len() as int, c),
        ),
{
    reveal(counts);
    reveal(live_bit);
    lemma_wrap(g.len() as int, r);
    lemma_wrap(g[0].len() as int, c);
}

/// The live neighbours among the first `k` steps, for `k` from 0 to 8.
spec fn live_among(g: Seq<Seq<u8>>, policy: BoundaryPolicy, row: int, col: int, k: int) -> nat {
    moore_offsets().take(k).filter_map(
        policy.neighbor_of(g.len() as int, g[0].len() as int, row, col),
    ).filter(alive_in(g)).len()
}

/// One more step adds what the coordinate it leads to counts for.
proof fn lemma_live_step(g: Seq<Seq<u8>>, policy: BoundaryPolicy, row: int, col: int, k: int)
    requires
        0 <= k < 8,
    ensures
        live_among(g, policy, row, col, k + 1) == live_among(g, policy, row, col, k) + counts(
            g,
            policy,
            row + moore_offsets()[k].0,
            col + moore_offsets()[k].1,
        ),
        counts(g, policy, row + moore_offsets()[k].0, col + moore_offsets()[k].1) <= 1,
{
    reveal(counts);
    let offsets = moore_offsets();
    let f = policy.neighbor_of(g.len() as int, g[0].len() as int, row, col);
    let alive = alive_in(g);
    let before = offsets.take(k).filter_map(f);
    offsets.lemma_filter_map_take_succ(f, k);
    match f(offsets[k]) {
        Some(p) => {
            assert(before + seq![p] =~= before.push(p));
            before.lemma_filter_len_push(alive, p);
        },
        None => {
            assert(before + Seq::<(int, int)>::empty() =~= before);
        },
    }
}

/// The live neighbours of a cell are counted step by step: each of the 8
/// coordinates one step away adds 1 where a live cell stands there.
pub proof fn lemma_live_neighbors_sum(g: Seq<Seq<u8>>, policy: BoundaryPolicy, row: int, col: int)
    ensures
        live_neighbors(g, policy, row, col) == counts(g, policy, row + 1, col + 1)
            + counts(g, policy, row - 1, col - 1)
            + counts(g, policy, row + 1, col - 1)
            + counts(g, policy, row - 1, col + 1)
            + counts(g, policy, row, col + 1)
            + counts(g, policy, row, col - 1)
            + counts(g, policy, row + 1, col)
            + counts(g, policy, row - 1, col),
        live_neighbors(g, policy, row, col) <= 8,
{
    reveal(live_neighbors);
    let offsets = moore_offsets();
    let f = policy.neighbor_of(g.len() as int, g[0].len() as int, row, col);
    assert(offsets.take(0).filter_map(f) =~= Seq::empty());
    assert(live_among(g, policy, row, col, 0) == 0) by {
        Seq::<(int, int)>::empty().lemma_filter_len(alive_in(g));
    }
    lemma_live_step(g, policy, row, col, 0);
    lemma_live_step(g, policy, row, col, 1);
    lemma_live_step(g, policy, row, col, 2);
    lemma_live_step(g, policy, row, col, 3);
    lemma_live_step(g, policy, row, col, 4);
    lemma_live_step(g, policy, row, col, 5);
    lemma_live_step(g, policy, row, col, 6);
    lemma_live_step(g, policy, row, col, 7);
    assert(offsets.take(8) =~= offsets);
}

/// The cells of the next generation, laid out row after row, are the next
/// generation.
pub proof fn lemma_next_cells_grid(g: Seq<Seq<u8>>, policy: BoundaryPolicy)
    requires
        is_grid(g),
    ensures
        grid_of(g.len(), g[0].len(), next_cells(g, policy)) == next_generation(
            g,
            policy,
        ),
        next_cells(g, policy).len() == g.len() * g[0].len(),
        is_grid(next_generation(g, policy)),
        next_generation(g, policy).len() == g.len(),
        next_generation(g, policy)[0].len() == g[0].len(),
{
    let rows = g.len();
    let cols = g[0].len();
    let flat = grid_of(rows, cols, next_cells(g, policy));
    let next = next_generation(g, policy);
    lemma_grid_cells(rows, cols, next_cells(g, policy));
    assert forall|r: int, c: int| 0 <= r < rows && 0 <= c < cols implies #[trigger] flat[r][c]
        == next[r][c] by {
        lemma_index_join(rows as int, cols as int, r, c);
    }
    assert(flat =~~= next);
}

/// A cell with exactly 3 live neighbours is alive in the next generation,
/// whatever it is now.
pub proof fn lemma_three_neighbors_live(g: Seq<Seq<u8>>, policy: BoundaryPolicy, row: int, col: int)
    requires
        live_neighbors(g, policy, row, col) == 3,
    ensures
        next_cell(g, policy, row, col) == 1,
{
}

/// A live cell with fewer than 2 live neighbours is dead in the next
/// generation.
pub proof fn lemma_underpopulation(g: Seq<Seq<u8>>, policy: BoundaryPolicy, row: int, col: int)
    requires
        g[row][col] == 1,
        live_neighbors(g, policy, row, col) <= 1,
    ensures
        next_cell(g, policy, row, col) == 0,
{
}

/// A live cell with more than 3 live neighbours is dead in the next
/// generation.
pub proof fn lemma_overpopulation(g: Seq<Seq<u8>>, policy: BoundaryPolicy, row: int, col: int)
    requires
        g[row][col] == 1,
        live_neighbors(g, policy, row, col) > 3,
    ensures
        next_cell(g, policy, row, col) == 0,
{
}

/// A live cell with 2 or 3 live neighbours lives on, and a dead cell stays
/// dead unless it has exactly 3: with the three lemmas above, the whole
/// rule.
pub proof fn lemma_survival_and_birth(g: Seq<Seq<u8>>, policy: BoundaryPolicy, row: int, col: int)
    ensures
        g[row][col] == 1 && live_neighbors(g, policy, row, col) == 2 ==> next_cell(
            g,
            policy,
            row,
            col,
        ) == 1,
        g[row][col] != 1 && live_neighbors(g, policy, row, col) != 3 ==> next_cell(
            g,
            policy,
            row,
            col,
        ) == 0,
        next_cell(g, policy, row, col) <= 1,
{
}

/// Every neighbour of a cell of the grid is a cell of the grid, and a cell
/// has at most 8.
pub proof fn lemma_neighbors_on_grid(
    policy: BoundaryPolicy,
    rows: int,
    cols: int,
    row: int,
    col: int,
)
    requires
        0 <= row < rows,
        0 <= col < cols,
    ensures
        policy.neighbors(rows, cols, row, col).len() <= 8,
        forall|i: int|
            0 <= i < policy.neighbors(rows, cols, row, col).len() ==> {
                let p = #[trigger] policy.neighbors(rows, cols, row, col)[i];
                0 <= p.0 < rows && 0 <= p.1 < cols
            },
{
    lemma_neighbors_unfold(policy, rows, cols, row, col);
    lemma_wrap(rows, row - 1);
    lemma_wrap(rows, row);
    lemma_wrap(rows, row + 1);
    lemma_wrap(cols, col - 1);
    lemma_wrap(cols, col);
    lemma_wrap(cols, col + 1);
}

/// Under the toroidal policy every cell has exactly 8 neighbours.
pub proof fn lemma_toroidal_neighbors(rows: int, cols: int, row: int, col: int)
    ensures
        BoundaryPolicy::Toroidal.neighbors(rows, cols, row, col).len() == 8,
{
    lemma_neighbors_unfold(BoundaryPolicy::Toroidal, rows, cols, row, col);
}

/// Under the terminating policy a cell in a corner of the grid has at most
/// 3 neighbours.
pub proof fn lemma_corner_neighbors(rows: int, cols: int, row: int, col: int)
    requires
        0 < rows,
        0 < cols,
        row == 0 || row == rows - 1,
        col == 0 || col == cols - 1,
    ensures
        BoundaryPolicy::Terminating.neighbors(rows, cols, row, col).len() <= 3,
{
    lemma_neighbors_unfold(BoundaryPolicy::Terminating, rows, cols, row, col);
}

/// A coordinate one step from a cell of a grid without live cells counts
/// for nothing.
proof fn lemma_counts_dead(g: Seq<Seq<u8>>, policy: BoundaryPolicy, r: int, c: int)
    requires
        is_grid(g),
        all_dead(g),
        -1 <= r <= g.len(),
        -1 <= c <= g[0].len(),
    ensures
        counts(g, policy, r, c) == 0,
{
    reveal(counts);
    lemma_wrap(g.len() as int, r);
    lemma_wrap(g[0].len() as int, c);
}

/// A grid without live cells has none in the next generation either.
pub proof fn lemma_all_dead_next(g: Seq<Seq<u8>>, policy: BoundaryPolicy)
    requires
        is_grid(g),
        all_dead(g),
    ensures
        next_generation(g, policy) == g,
{
    let next = next_generation(g, policy);
    assert forall|r: int, c: int|
        0 <= r < g.len() && 0 <= c < g[0].len() implies #[trigger] next[r][c] == g[r][c] by {
        lemma_live_neighbors_sum(g, policy, r, c);
        lemma_counts_dead(g, policy, r + 1, c + 1);
        lemma_counts_dead(g, policy, r - 1, c - 1);
        lemma_counts_dead(g, policy, r + 1, c - 1);
        lemma_counts_dead(g, policy, r - 1, c + 1);
        lemma_counts_dead(g, policy, r, c + 1);
        lemma_counts_dead(g, policy, r, c - 1);
        lemma_counts_dead(g, policy, r + 1, c);
        lemma_counts_dead(g, policy, r - 1, c);
    }
    assert(next =~~= g);
}

/// A grid without live cells stays as it is through any number of
/// generations.
pub proof fn lemma_all_dead_forever(g: Seq<Seq<u8>>, policy: BoundaryPolicy, n: nat)
    requires
        is_grid(g),
        all_dead(g),
    ensures
        generation(g, policy, n) == g,
    decreases n,
{
    if n > 0 {
        lemma_all_dead_forever(g, policy, (n - 1) as nat);
        lemma_all_dead_next(g, policy);
    }
}

} // verus!
