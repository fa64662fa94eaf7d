//! The board as a mathematical object: cells by column `x` and row `y`,
//! neighbourhoods, mine counts, and the region that one reveal uncovers.
use vstd::prelude::*;
use crate::cell::{Cell, CellState};
use crate::config::Difficulty;

verus! {

pub open spec fn in_bounds(d: Difficulty, x: int, y: int) -> bool {
    0 <= x < d.cols && 0 <= y < d.rows
}

/// `b` has `d.rows` rows of `d.cols` cells.
pub open spec fn well_shaped(b: Seq<Seq<Cell>>, d: Difficulty) -> bool {
    &&& b.len() == d.rows
    &&& forall|y: int| 0 <= y < b.len() ==> #[trigger] b[y].len() == d.cols
}

pub open spec fn same_shape(a: Seq<Seq<Cell>>, b: Seq<Seq<Cell>>) -> bool {
    &&& a.len() == b.len()
    &&& forall|y: int| 0 <= y < a.len() ==> #[trigger] a[y].len() == b[y].len()
}

/// The eight cells around `(x, y)`.
pub open spec fn is_neighbor(x: int, y: int, nx: int, ny: int) -> bool {
    &&& x - 1 <= nx <= x + 1
    &&& y - 1 <= ny <= y + 1
    &&& !(nx == x && ny == y)
}

/// The neighbours in the order the game visits them: row above, same row, row below,
/// each from left to right.
pub open spec fn offset_x(k: int) -> int {
    if k == 0 || k == 3 || k == 5 {
        -1
    } else if k == 1 || k == 6 {
        0
    } else {
        1
    }
}

pub open spec fn offset_y(k: int) -> int {
    if k <= 2 {
        -1
    } else if k <= 4 {
        0
    } else {
        1
    }
}

pub open spec fn mine_at(b: Seq<Seq<Cell>>, d: Difficulty, x: int, y: int) -> int {
    if in_bounds(d, x, y) && b[y][x].is_mine {
        1
    } else {
        0
    }
}

/// How many of the eight cells around `(x, y)` are mines.
pub open spec fn adjacent_mine_count(b: Seq<Seq<Cell>>, d: Difficulty, x: int, y: int) -> int {
    mine_at(b, d, x - 1, y - 1) + mine_at(b, d, x, y - 1) + mine_at(b, d, x + 1, y - 1)
        + mine_at(b, d, x - 1, y) + mine_at(b, d, x + 1, y)
        + mine_at(b, d, x - 1, y + 1) + mine_at(b, d, x, y + 1) + mine_at(b, d, x + 1, y + 1)
}

/// The mines among the first `k` neighbours, in visiting order.
pub open spec fn mines_among_first(b: Seq<Seq<Cell>>, d: Difficulty, x: int, y: int, k: int) -> int
    decreases k,
{
    if k <= 0 {
        0
    } else {
        mines_among_first(b, d, x, y, k - 1) + mine_at(b, d, x + offset_x(k - 1), y + offset_y(k - 1))
    }
}

/// Every cell that is not a mine knows how many mines surround it.
pub open spec fn counts_consistent(b: Seq<Seq<Cell>>, d: Difficulty) -> bool {
    forall|x: int, y: int|
        #![trigger b[y][x]]
        in_bounds(d, x, y) && !b[y][x].is_mine ==> b[y][x].adjacent_mines == adjacent_mine_count(
            b,
            d,
            x,
            y,
        )
}

/// The mines and the counts are the same in `a` and `b`.
pub open spec fn same_layout(a: Seq<Seq<Cell>>, b: Seq<Seq<Cell>>, d: Difficulty) -> bool {
    forall|x: int, y: int|
        #![trigger b[y][x]]
        in_bounds(d, x, y) ==> b[y][x].is_mine == a[y][x].is_mine && b[y][x].adjacent_mines
            == a[y][x].adjacent_mines
}

pub open spec fn hidden(b: Seq<Seq<Cell>>, x: int, y: int) -> bool {
    b[y][x].state == CellState::Hidden
}

pub open spec fn revealed(b: Seq<Seq<Cell>>, x: int, y: int) -> bool {
    b[y][x].state == CellState::Revealed
}

/// A cell from which a reveal spreads to its neighbours: no mine in it or around it.
pub open spec fn opens(b: Seq<Seq<Cell>>, d: Difficulty, x: int, y: int) -> bool {
    &&& in_bounds(d, x, y)
    &&& !b[y][x].is_mine
    &&& b[y][x].adjacent_mines == 0
}

/// The game is won once every cell without a mine is revealed.
pub open spec fn all_safe_revealed(b: Seq<Seq<Cell>>, d: Difficulty) -> bool {
    forall|x: int, y: int|
        #![trigger b[y][x]]
        in_bounds(d, x, y) && !b[y][x].is_mine ==> b[y][x].state == CellState::Revealed
}

pub open spec fn path_cell_ok(b: Seq<Seq<Cell>>, d: Difficulty, p: Seq<(int, int)>, i: int) -> bool {
    in_bounds(d, p[i].0, p[i].1) && hidden(b, p[i].0, p[i].1)
}

pub open spec fn path_step_ok(b: Seq<Seq<Cell>>, d: Difficulty, p: Seq<(int, int)>, i: int) -> bool {
    opens(b, d, p[i].0, p[i].1) && is_neighbor(p[i].0, p[i].1, p[i + 1].0, p[i + 1].1)
}

/// A chain of hidden cells, each next to the one before, where every cell but the
/// last opens onto its neighbours.
pub open spec fn is_reveal_path(b: Seq<Seq<Cell>>, d: Difficulty, p: Seq<(int, int)>) -> bool {
    &&& p.len() > 0
    &&& forall|i: int| 0 <= i < p.len() ==> #[trigger] path_cell_ok(b, d, p, i)
    &&& forall|i: int| 0 <= i < p.len() - 1 ==> #[trigger] path_step_ok(b, d, p, i)
}

/// Revealing `(sx, sy)` on board `b` uncovers `(x, y)`.
pub open spec fn reachable(b: Seq<Seq<Cell>>, d: Difficulty, sx: int, sy: int, x: int, y: int) -> bool {
    exists|p: Seq<(int, int)>|
        #[trigger] is_reveal_path(b, d, p) && p[0] == (sx, sy) && p[p.len() - 1] == (x, y)
}

/// No cell around `(x, y)` is still hidden.
pub open spec fn neighbors_uncovered(b: Seq<Seq<Cell>>, d: Difficulty, x: int, y: int) -> bool {
    forall|nx: int, ny: int|
        #[trigger] is_neighbor(x, y, nx, ny) && in_bounds(d, nx, ny) ==> !hidden(b, nx, ny)
}

pub open spec fn row_hidden(r: Seq<Cell>) -> nat
    decreases r.len(),
{
    if r.len() == 0 {
        0
    } else {
        row_hidden(r.drop_last()) + if r.last().state == CellState::Hidden {
            1nat
        } else {
            0nat
        }
    }
}

/// The number of hidden cells.
pub open spec fn count_hidden(b: Seq<Seq<Cell>>) -> nat
    decreases b.len(),
{
    if b.len() == 0 {
        0
    } else {
        count_hidden(b.drop_last()) + row_hidden(b.last())
    }
}

/// Every cell hidden in `new` was hidden in `old`.
pub open spec fn hidden_shrinks(old: Seq<Seq<Cell>>, new: Seq<Seq<Cell>>) -> bool {
    &&& same_shape(old, new)
    &&& forall|x: int, y: int|
        #![trigger new[y][x]]
        0 <= y < new.len() && 0 <= x < new[y].len() && new[y][x].state == CellState::Hidden
            ==> old[y][x].state == CellState::Hidden
}

// ---------------------------------------------------------------------------------------
// Neighbourhoods
// ---------------------------------------------------------------------------------------

pub proof fn lemma_offset_is_neighbor(k: int)
    requires
        0 <= k < 8,
    ensures
        forall|x: int, y: int| #[trigger] is_neighbor(x, y, x + offset_x(k), y + offset_y(k)),
{
}

/// Each neighbour is reached by one of the eight offsets.
pub proof fn lemma_neighbor_has_offset(x: int, y: int, nx: int, ny: int) -> (k: int)
    requires
        is_neighbor(x, y, nx, ny),
    ensures
        0 <= k < 8,
        nx == x + offset_x(k),
        ny == y + offset_y(k),
{
    if ny == y - 1 {
        if nx == x - 1 { 0 } else if nx == x { 1 } else { 2 }
    } else if ny == y {
        if nx == x - 1 { 3 } else { 4 }
    } else {
        if nx == x - 1 { 5 } else if nx == x { 6 } else { 7 }
    }
}

pub proof fn lemma_mines_among_all(b: Seq<Seq<Cell>>, d: Difficulty, x: int, y: int)
    ensures
        mines_among_first(b, d, x, y, 8) == adjacent_mine_count(b, d, x, y),
{
    reveal_with_fuel(mines_among_first, 9);
}

/// At most eight mines surround a cell.
pub proof fn lemma_count_bound(b: Seq<Seq<Cell>>, d: Difficulty, x: int, y: int)
    ensures
        0 <= adjacent_mine_count(b, d, x, y) <= 8,
{
}

/// A cell that opens has no mine next to it.
pub proof fn lemma_opens_neighbor_safe(b: Seq<Seq<Cell>>, d: Difficulty, x: int, y: int, nx: int, ny: int)
    requires
        counts_consistent(b, d),
        opens(b, d, x, y),
        is_neighbor(x, y, nx, ny),
        in_bounds(d, nx, ny),
    ensures
        !b[ny][nx].is_mine,
{
    assert(b[y][x].adjacent_mines == adjacent_mine_count(b, d, x, y));
    assert(mine_at(b, d, nx, ny) == 0);
}

/// The mine counts depend on the mines alone.
pub proof fn lemma_count_same_mines(a: Seq<Seq<Cell>>, b: Seq<Seq<Cell>>, d: Difficulty, x: int, y: int)
    requires
        forall|cx: int, cy: int|
            #![trigger b[cy][cx]]
            in_bounds(d, cx, cy) ==> b[cy][cx].is_mine == a[cy][cx].is_mine,
    ensures
        adjacent_mine_count(a, d, x, y) == adjacent_mine_count(b, d, x, y),
{
    assert(mine_at(a, d, x - 1, y - 1) == mine_at(b, d, x - 1, y - 1));
    assert(mine_at(a, d, x, y - 1) == mine_at(b, d, x, y - 1));
    assert(mine_at(a, d, x + 1, y - 1) == mine_at(b, d, x + 1, y - 1));
    assert(mine_at(a, d, x - 1, y) == mine_at(b, d, x - 1, y));
    assert(mine_at(a, d, x + 1, y) == mine_at(b, d, x + 1, y));
    assert(mine_at(a, d, x - 1, y + 1) == mine_at(b, d, x - 1, y + 1));
    assert(mine_at(a, d, x, y + 1) == mine_at(b, d, x, y + 1));
    assert(mine_at(a, d, x + 1, y + 1) == mine_at(b, d, x + 1, y + 1));
}

/// Counts stay right while the mines stay where they are.
pub proof fn lemma_layout_keeps_counts(a: Seq<Seq<Cell>>, b: Seq<Seq<Cell>>, d: Difficulty)
    requires
        same_layout(a, b, d),
        counts_consistent(a, d),
    ensures
        counts_consistent(b, d),
{
    assert forall|x: int, y: int|
        #![trigger b[y][x]]
        in_bounds(d, x, y) && !b[y][x].is_mine implies b[y][x].adjacent_mines == adjacent_mine_count(
        b,
        d,
        x,
        y,
    ) by {
        assert(a[y][x].adjacent_mines == adjacent_mine_count(a, d, x, y));
        lemma_count_same_mines(a, b, d, x, y);
    }
}

pub proof fn lemma_shrinks_in_bounds(old: Seq<Seq<Cell>>, new: Seq<Seq<Cell>>, d: Difficulty)
    requires
        well_shaped(old, d),
        well_shaped(new, d),
        forall|x: int, y: int|
            #![trigger new[y][x]]
            in_bounds(d, x, y) && hidden(new, x, y) ==> hidden(old, x, y),
    ensures
        hidden_shrinks(old, new),
{
    assert forall|x: int, y: int|
        #![trigger new[y][x]]
        0 <= y < new.len() && 0 <= x < new[y].len() && new[y][x].state == CellState::Hidden
            implies old[y][x].state == CellState::Hidden by {
        assert(new[y].len() == d.cols);
        assert(hidden(new, x, y));
    }
}

// ---------------------------------------------------------------------------------------
// Reveal paths
// ---------------------------------------------------------------------------------------

pub proof fn lemma_reachable_self(b: Seq<Seq<Cell>>, d: Difficulty, x: int, y: int)
    requires
        in_bounds(d, x, y),
        hidden(b, x, y),
    ensures
        reachable(b, d, x, y, x, y),
{
    let p = seq![(x, y)];
    assert(path_cell_ok(b, d, p, 0));
    assert(is_reveal_path(b, d, p));
}

/// The reveal spreads from an uncovered cell that opens to each hidden neighbour.
pub proof fn lemma_reachable_extend(
    b: Seq<Seq<Cell>>,
    d: Difficulty,
    sx: int,
    sy: int,
    x: int,
    y: int,
    nx: int,
    ny: int,
)
    requires
        reachable(b, d, sx, sy, x, y),
        opens(b, d, x, y),
        is_neighbor(x, y, nx, ny),
        in_bounds(d, nx, ny),
        hidden(b, nx, ny),
    ensures
        reachable(b, d, sx, sy, nx, ny),
{
    let p = choose|p: Seq<(int, int)>|
        #[trigger] is_reveal_path(b, d, p) && p[0] == (sx, sy) && p[p.len() - 1] == (x, y);
    let q = p.push((nx, ny));
    assert forall|i: int| 0 <= i < q.len() implies #[trigger] path_cell_ok(b, d, q, i) by {
        if i < p.len() {
            assert(path_cell_ok(b, d, p, i));
        }
    }
    assert forall|i: int| 0 <= i < q.len() - 1 implies #[trigger] path_step_ok(b, d, q, i) by {
        if i < p.len() - 1 {
            assert(path_step_ok(b, d, p, i));
        }
    }
    assert(is_reveal_path(b, d, q));
    assert(q[0] == (sx, sy));
}

/// Starting one step earlier, from a cell that opens, reaches as far.
pub proof fn lemma_reachable_prepend(
    b: Seq<Seq<Cell>>,
    d: Difficulty,
    sx: int,
    sy: int,
    nx: int,
    ny: int,
    x: int,
    y: int,
)
    requires
        reachable(b, d, nx, ny, x, y),
        opens(b, d, sx, sy),
        hidden(b, sx, sy),
        is_neighbor(sx, sy, nx, ny),
    ensures
        reachable(b, d, sx, sy, x, y),
{
    let p = choose|p: Seq<(int, int)>|
        #[trigger] is_reveal_path(b, d, p) && p[0] == (nx, ny) && p[p.len() - 1] == (x, y);
    let q = seq![(sx, sy)] + p;
    assert forall|i: int| 0 <= i < q.len() implies #[trigger] path_cell_ok(b, d, q, i) by {
        if i > 0 {
            assert(path_cell_ok(b, d, p, i - 1));
            assert(q[i] == p[i - 1]);
        }
    }
    assert forall|i: int| 0 <= i < q.len() - 1 implies #[trigger] path_step_ok(b, d, q, i) by {
        if i > 0 {
            assert(path_step_ok(b, d, p, i - 1));
            assert(q[i] == p[i - 1]);
            assert(q[i + 1] == p[i]);
        }
    }
    assert(is_reveal_path(b, d, q));
    assert(q[q.len() - 1] == p[p.len() - 1]);
}

/// Paths over a board stay paths over an earlier board on which at least the same
/// cells were hidden and the mines lay the same.
pub proof fn lemma_reachable_earlier(
    a: Seq<Seq<Cell>>,
    b: Seq<Seq<Cell>>,
    d: Difficulty,
    sx: int,
    sy: int,
    x: int,
    y: int,
)
    requires
        reachable(b, d, sx, sy, x, y),
        same_layout(a, b, d),
        forall|cx: int, cy: int|
            #![trigger b[cy][cx]]
            in_bounds(d, cx, cy) && hidden(b, cx, cy) ==> hidden(a, cx, cy),
    ensures
        reachable(a, d, sx, sy, x, y),
{
    let p = choose|p: Seq<(int, int)>|
        #[trigger] is_reveal_path(b, d, p) && p[0] == (sx, sy) && p[p.len() - 1] == (x, y);
    assert forall|i: int| 0 <= i < p.len() implies #[trigger] path_cell_ok(a, d, p, i) by {
        assert(path_cell_ok(b, d, p, i));
        assert(hidden(b, p[i].0, p[i].1));
    }
    assert forall|i: int| 0 <= i < p.len() - 1 implies #[trigger] path_step_ok(a, d, p, i) by {
        assert(path_step_ok(b, d, p, i));
        assert(b[p[i].1][p[i].0].is_mine == a[p[i].1][p[i].0].is_mine);
    }
    assert(is_reveal_path(a, d, p));
}

/// If every uncovered cell that opens has its neighbourhood uncovered, every cell that
/// a reveal of `(sx, sy)` reaches is revealed.
pub proof fn lemma_closed_region_complete(
    a: Seq<Seq<Cell>>,
    c: Seq<Seq<Cell>>,
    d: Difficulty,
    sx: int,
    sy: int,
    x: int,
    y: int,
)
    requires
        reachable(a, d, sx, sy, x, y),
        counts_consistent(a, d),
        !a[sy][sx].is_mine,
        revealed(c, sx, sy),
        forall|cx: int, cy: int|
            #![trigger c[cy][cx]]
            in_bounds(d, cx, cy) && !a[cy][cx].is_mine && hidden(a, cx, cy) && !hidden(c, cx, cy)
                ==> revealed(c, cx, cy),
        forall|cx: int, cy: int|
            #![trigger c[cy][cx]]
            in_bounds(d, cx, cy) && hidden(a, cx, cy) && revealed(c, cx, cy) && opens(a, d, cx, cy)
                ==> neighbors_uncovered(c, d, cx, cy),
    ensures
        revealed(c, x, y),
{
    let p = choose|p: Seq<(int, int)>|
        #[trigger] is_reveal_path(a, d, p) && p[0] == (sx, sy) && p[p.len() - 1] == (x, y);
    lemma_path_revealed(a, c, d, p, p.len() - 1);
}

proof fn lemma_path_revealed(a: Seq<Seq<Cell>>, c: Seq<Seq<Cell>>, d: Difficulty, p: Seq<(int, int)>, i: int)
    requires
        is_reveal_path(a, d, p),
        0 <= i < p.len(),
        counts_consistent(a, d),
        !a[p[0].1][p[0].0].is_mine,
        revealed(c, p[0].0, p[0].1),
        forall|cx: int, cy: int|
            #![trigger c[cy][cx]]
            in_bounds(d, cx, cy) && !a[cy][cx].is_mine && hidden(a, cx, cy) && !hidden(c, cx, cy)
                ==> revealed(c, cx, cy),
        forall|cx: int, cy: int|
            #![trigger c[cy][cx]]
            in_bounds(d, cx, cy) && hidden(a, cx, cy) && revealed(c, cx, cy) && opens(a, d, cx, cy)
                ==> neighbors_uncovered(c, d, cx, cy),
    ensures
        revealed(c, p[i].0, p[i].1),
    decreases i,
{
    if i > 0 {
        lemma_path_revealed(a, c, d, p, i - 1);
        let (px, py) = p[i - 1];
        let (qx, qy) = p[i];
        assert(path_step_ok(a, d, p, i - 1));
        assert(path_cell_ok(a, d, p, i - 1));
        assert(path_cell_ok(a, d, p, i));
        assert(c[py][px].state == CellState::Revealed);
        assert(neighbors_uncovered(c, d, px, py));
        assert(is_neighbor(px, py, qx, qy));
        assert(!hidden(c, qx, qy));
        lemma_opens_neighbor_safe(a, d, px, py, qx, qy);
        assert(c[qy][qx].state == CellState::Revealed);
    }
}

// ---------------------------------------------------------------------------------------
// Counting hidden cells
// ---------------------------------------------------------------------------------------

proof fn lemma_row_hidden_le(old: Seq<Cell>, new: Seq<Cell>)
    requires
        old.len() == new.len(),
        forall|i: int|
            0 <= i < new.len() && #[trigger] new[i].state == CellState::Hidden ==> old[i].state
                == CellState::Hidden,
    ensures
        row_hidden(new) <= row_hidden(old),
    decreases new.len(),
{
    if new.len() > 0 {
        lemma_row_hidden_le(old.drop_last(), new.drop_last());
    }
}

proof fn lemma_row_hidden_lt(old: Seq<Cell>, new: Seq<Cell>, k: int)
    requires
        old.len() == new.len(),
        forall|i: int|
            0 <= i < new.len() && #[trigger] new[i].state == CellState::Hidden ==> old[i].state
                == CellState::Hidden,
        0 <= k < new.len(),
        old[k].state == CellState::Hidden,
        new[k].state != CellState::Hidden,
    ensures
        row_hidden(new) < row_hidden(old),
    decreases new.len(),
{
    if k == new.len() - 1 {
        lemma_row_hidden_le(old.drop_last(), new.drop_last());
    } else {
        lemma_row_hidden_lt(old.drop_last(), new.drop_last(), k);
    }
}

pub proof fn lemma_count_hidden_le(old: Seq<Seq<Cell>>, new: Seq<Seq<Cell>>)
    requires
        hidden_shrinks(old, new),
    ensures
        count_hidden(new) <= count_hidden(old),
    decreases new.len(),
{
    if new.len() > 0 {
        let n = new.len() - 1;
        assert(hidden_shrinks(old.drop_last(), new.drop_last())) by {
            assert forall|x: int, y: int|
                0 <= y < new.drop_last().len() && 0 <= x < new.drop_last()[y].len()
                    && #[trigger] new.drop_last()[y][x].state == CellState::Hidden implies old.drop_last()[y][x].state
                    == CellState::Hidden by {
                assert(new[y][x].state == CellState::Hidden);
            }
        }
        lemma_count_hidden_le(old.drop_last(), new.drop_last());
        assert(old[n].len() == new[n].len());
        assert forall|i: int|
            0 <= i < new[n].len() && #[trigger] new[n][i].state == CellState::Hidden implies old[n][i].state
                == CellState::Hidden by {
            assert(new[n][i].state == CellState::Hidden);
        }
        lemma_row_hidden_le(old[n], new[n]);
    }
}

pub proof fn lemma_count_hidden_lt(old: Seq<Seq<Cell>>, new: Seq<Seq<Cell>>, x: int, y: int)
    requires
        hidden_shrinks(old, new),
        0 <= y < new.len(),
        0 <= x < new[y].len(),
        old[y][x].state == CellState::Hidden,
        new[y][x].state != CellState::Hidden,
    ensures
        count_hidden(new) < count_hidden(old),
    decreases new.len(),
{
    let n = new.len() - 1;
    assert(hidden_shrinks(old.drop_last(), new.drop_last())) by {
        assert forall|cx: int, cy: int|
            0 <= cy < new.drop_last().len() && 0 <= cx < new.drop_last()[cy].len()
                && #[trigger] new.drop_last()[cy][cx].state == CellState::Hidden implies old.drop_last()[cy][cx].state
                == CellState::Hidden by {
            assert(new[cy][cx].state == CellState::Hidden);
        }
    }
    assert(old[n].len() == new[n].len());
    assert forall|i: int|
        0 <= i < new[n].len() && #[trigger] new[n][i].state == CellState::Hidden implies old[n][i].state
            == CellState::Hidden by {
        assert(new[n][i].state == CellState::Hidden);
    }
    if y == n {
        lemma_count_hidden_le(old.drop_last(), new.drop_last());
        lemma_row_hidden_lt(old[n], new[n], x);
    } else {
        lemma_count_hidden_lt(old.drop_last(), new.drop_last(), x, y);
        lemma_row_hidden_le(old[n], new[n]);
    }
}

} // verus!
