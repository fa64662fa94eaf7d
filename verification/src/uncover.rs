//! What one reveal does to the board, and the proof that the recursive reveal does it.
use vstd::prelude::*;
use crate::board::{
    all_safe_revealed, count_hidden, counts_consistent, hidden, hidden_shrinks, in_bounds,
    is_neighbor, lemma_count_hidden_le, lemma_count_hidden_lt, lemma_layout_keeps_counts,
    lemma_neighbor_has_offset, lemma_shrinks_in_bounds, offset_x, offset_y,
    lemma_closed_region_complete, lemma_opens_neighbor_safe, lemma_reachable_earlier,
    lemma_reachable_extend, lemma_reachable_prepend, lemma_reachable_self, neighbors_uncovered,
    opens, reachable, revealed, same_layout, well_shaped,
};
use crate::cell::{Cell, CellState};
use crate::config::{Difficulty, GameState};
use crate::rules::{
    GameView, board_set, first_reveal_clear, game_wf, lemma_first_reveal_safe, map_cells,
    mine_flagged, mine_shown, mines_placed, win_checked,
};

verus! {

/// A board laid out as `layout`, showing what `shown` shows.
pub open spec fn with_states(layout: Seq<Seq<Cell>>, shown: Seq<Seq<Cell>>) -> Seq<Seq<Cell>> {
    Seq::new(
        layout.len(),
        |y: int|
            Seq::new(
                layout[y].len(),
                |x: int| Cell { state: shown[y][x].state, ..layout[y][x] },
            ),
    )
}

/// What cell `(cx, cy)` shows after `(x, y)` is revealed on board `b0` (the board with its
/// mines laid). On a mine, the game is lost and every mine without a flag is shown.
/// Otherwise every cell that the reveal reaches is uncovered, and, if that leaves no
/// cell without a mine hidden (`won`), every mine is flagged.
pub open spec fn state_after_reveal(
    b0: Seq<Seq<Cell>>,
    d: Difficulty,
    x: int,
    y: int,
    won: bool,
    cx: int,
    cy: int,
) -> CellState {
    if b0[y][x].is_mine {
        if b0[cy][cx].is_mine && b0[cy][cx].state != CellState::Flagged {
            CellState::Revealed
        } else {
            b0[cy][cx].state
        }
    } else if b0[cy][cx].is_mine {
        if won {
            CellState::Flagged
        } else {
            b0[cy][cx].state
        }
    } else if hidden(b0, cx, cy) && reachable(b0, d, x, y, cx, cy) {
        CellState::Revealed
    } else {
        b0[cy][cx].state
    }
}

/// `new` is the game after the player reveals `(x, y)` in `old`. Outside the board, or on
/// a cell already revealed or flagged, nothing changes. The first reveal lays the mines
/// and starts the clock.
pub open spec fn reveal_result(old: GameView, new: GameView, x: int, y: int) -> bool {
    let d = old.difficulty;
    if !in_bounds(d, x, y) || old.board[y][x].state != CellState::Hidden {
        new == old
    } else {
        let b0 = if old.first_click {
            with_states(new.board, old.board)
        } else {
            old.board
        };
        let won = all_safe_revealed(new.board, d);
        let hit = b0[y][x].is_mine;
        &&& old.first_click ==> mines_placed(old.board, b0, d, x, y)
        &&& well_shaped(new.board, d)
        &&& same_layout(b0, new.board, d)
        &&& forall|cx: int, cy: int|
            #![trigger new.board[cy][cx]]
            in_bounds(d, cx, cy) ==> new.board[cy][cx].state == state_after_reveal(
                b0,
                d,
                x,
                y,
                won,
                cx,
                cy,
            )
        &&& new.state == if hit {
            GameState::Lost
        } else if won {
            GameState::Won
        } else {
            old.state
        }
        &&& new.flags_remaining == if !hit && won {
            0
        } else {
            old.flags_remaining
        }
        &&& new.difficulty == d
        &&& new.cursor_x == old.cursor_x
        &&& new.cursor_y == old.cursor_y
        &&& new.timer_seconds == old.timer_seconds
        &&& if old.first_click {
            new.game_started is Some
        } else {
            new.game_started == old.game_started
        }
        &&& !new.first_click
    }
}

/// Part way through revealing `(x, y)` on `a`: the board `c` has uncovered only cells
/// that the reveal reaches, kept what was uncovered, and every uncovered cell that opens,
/// other than `(x, y)` itself, has its neighbourhood uncovered.
pub open spec fn spreading(a: Seq<Seq<Cell>>, c: Seq<Seq<Cell>>, d: Difficulty, x: int, y: int) -> bool {
    &&& well_shaped(c, d)
    &&& same_layout(a, c, d)
    &&& revealed(c, x, y)
    &&& forall|cx: int, cy: int|
        #![trigger c[cy][cx]]
        in_bounds(d, cx, cy) && hidden(c, cx, cy) ==> hidden(a, cx, cy)
    &&& forall|cx: int, cy: int|
        #![trigger c[cy][cx]]
        in_bounds(d, cx, cy) && !a[cy][cx].is_mine && c[cy][cx].state != a[cy][cx].state
            ==> hidden(a, cx, cy) && revealed(c, cx, cy) && reachable(a, d, x, y, cx, cy)
    &&& forall|cx: int, cy: int|
        #![trigger c[cy][cx]]
        in_bounds(d, cx, cy) && a[cy][cx].is_mine ==> c[cy][cx].state == a[cy][cx].state || (
        c[cy][cx].state == CellState::Flagged && all_safe_revealed(c, d))
    &&& forall|cx: int, cy: int|
        #![trigger c[cy][cx]]
        in_bounds(d, cx, cy) && !(cx == x && cy == y) && hidden(a, cx, cy) && revealed(c, cx, cy)
            && opens(a, d, cx, cy) ==> neighbors_uncovered(c, d, cx, cy)
}

/// A board rebuilt from its own layout and its own states is itself.
pub proof fn lemma_with_states_same(a: Seq<Seq<Cell>>, o: Seq<Seq<Cell>>, n: Seq<Seq<Cell>>, d: Difficulty)
    requires
        well_shaped(a, d),
        well_shaped(n, d),
        same_layout(a, n, d),
        forall|x: int, y: int|
            #![trigger a[y][x]]
            in_bounds(d, x, y) ==> a[y][x].state == o[y][x].state,
    ensures
        with_states(n, o) == a,
{
    let w = with_states(n, o);
    assert forall|y: int| 0 <= y < a.len() implies #[trigger] w[y] == a[y] by {
        assert forall|x: int| 0 <= x < a[y].len() implies w[y][x] == a[y][x] by {
            assert(a[y].len() == d.cols);
            assert(n[y].len() == d.cols);
            assert(in_bounds(d, x, y));
            assert(n[y][x].is_mine == a[y][x].is_mine);
        }
        assert(w[y] =~= a[y]);
    }
    assert(w =~= a);
}

/// Revealing a neighbour `(nx, ny)` of `(x, y)` keeps the reveal of `(x, y)` spreading,
/// and leaves that neighbour uncovered.
pub proof fn lemma_spreading_step(
    a: Seq<Seq<Cell>>,
    pv: GameView,
    fv: GameView,
    d: Difficulty,
    x: int,
    y: int,
    nx: int,
    ny: int,
)
    requires
        spreading(a, pv.board, d, x, y),
        well_shaped(a, d),
        counts_consistent(a, d),
        opens(a, d, x, y),
        hidden(a, x, y),
        is_neighbor(x, y, nx, ny),
        in_bounds(d, nx, ny),
        pv.difficulty == d,
        !pv.first_click,
        reveal_result(pv, fv, nx, ny),
    ensures
        spreading(a, fv.board, d, x, y),
        !hidden(fv.board, nx, ny),
        all_safe_revealed(pv.board, d) ==> all_safe_revealed(fv.board, d),
        forall|cx: int, cy: int|
            #![trigger fv.board[cy][cx]]
            in_bounds(d, cx, cy) && !hidden(pv.board, cx, cy) ==> !hidden(fv.board, cx, cy),
        (fv.state == pv.state && fv.flags_remaining == pv.flags_remaining) || (fv.state
            == GameState::Won && fv.flags_remaining == 0 && all_safe_revealed(fv.board, d)),
        fv.difficulty == pv.difficulty,
        fv.cursor_x == pv.cursor_x,
        fv.cursor_y == pv.cursor_y,
        fv.timer_seconds == pv.timer_seconds,
        fv.game_started == pv.game_started,
        !fv.first_click,
{
    let p = pv.board;
    let f = fv.board;
    if hidden(p, nx, ny) {
        lemma_opens_neighbor_safe(a, d, x, y, nx, ny);
        assert(!p[ny][nx].is_mine);
        let won = all_safe_revealed(f, d);
        assert(same_layout(a, f, d));
        lemma_reachable_self(p, d, nx, ny);
        assert(f[ny][nx].state == state_after_reveal(p, d, nx, ny, won, nx, ny));
        // Uncovered cells stay uncovered.
        assert forall|cx: int, cy: int|
            #![trigger f[cy][cx]]
            in_bounds(d, cx, cy) && !hidden(p, cx, cy) implies !hidden(f, cx, cy) by {
            assert(f[cy][cx].state == state_after_reveal(p, d, nx, ny, won, cx, cy));
        }
        assert forall|cx: int, cy: int|
            #![trigger f[cy][cx]]
            in_bounds(d, cx, cy) && hidden(f, cx, cy) implies hidden(a, cx, cy) by {
            assert(f[cy][cx].state == state_after_reveal(p, d, nx, ny, won, cx, cy));
            assert(p[cy][cx].is_mine == a[cy][cx].is_mine);
        }
        assert forall|cx: int, cy: int|
            #![trigger f[cy][cx]]
            in_bounds(d, cx, cy) && !a[cy][cx].is_mine && f[cy][cx].state != a[cy][cx].state
                implies hidden(a, cx, cy) && revealed(f, cx, cy) && reachable(a, d, x, y, cx, cy) by {
            assert(f[cy][cx].state == state_after_reveal(p, d, nx, ny, won, cx, cy));
            assert(p[cy][cx].is_mine == a[cy][cx].is_mine);
            if p[cy][cx].state == a[cy][cx].state {
                assert(hidden(p, cx, cy) && reachable(p, d, nx, ny, cx, cy));
                lemma_reachable_earlier(a, p, d, nx, ny, cx, cy);
                lemma_reachable_prepend(a, d, x, y, nx, ny, cx, cy);
            }
        }
        assert forall|cx: int, cy: int|
            #![trigger f[cy][cx]]
            in_bounds(d, cx, cy) && !f[cy][cx].is_mine implies f[cy][cx].state == CellState::Revealed
                || !all_safe_revealed(p, d) by {
            assert(f[cy][cx].state == state_after_reveal(p, d, nx, ny, won, cx, cy));
            assert(p[cy][cx].is_mine == a[cy][cx].is_mine);
        }
        assert forall|cx: int, cy: int|
            #![trigger f[cy][cx]]
            in_bounds(d, cx, cy) && a[cy][cx].is_mine implies f[cy][cx].state == a[cy][cx].state || (
            f[cy][cx].state == CellState::Flagged && all_safe_revealed(f, d)) by {
            assert(f[cy][cx].state == state_after_reveal(p, d, nx, ny, won, cx, cy));
            assert(p[cy][cx].is_mine == a[cy][cx].is_mine);
            if p[cy][cx].state != a[cy][cx].state {
                assert(all_safe_revealed(p, d));
                assert forall|qx: int, qy: int|
                    #![trigger f[qy][qx]]
                    in_bounds(d, qx, qy) && !f[qy][qx].is_mine implies f[qy][qx].state
                        == CellState::Revealed by {
                    assert(p[qy][qx].state == CellState::Revealed);
                    assert(f[qy][qx].state == state_after_reveal(p, d, nx, ny, won, qx, qy));
                }
            }
        }
        assert forall|cx: int, cy: int|
            #![trigger f[cy][cx]]
            in_bounds(d, cx, cy) && !(cx == x && cy == y) && hidden(a, cx, cy) && revealed(f, cx, cy)
                && opens(a, d, cx, cy) implies neighbors_uncovered(f, d, cx, cy) by {
            assert(f[cy][cx].state == state_after_reveal(p, d, nx, ny, won, cx, cy));
            assert(p[cy][cx].is_mine == a[cy][cx].is_mine);
            if revealed(p, cx, cy) {
                assert(neighbors_uncovered(p, d, cx, cy));
                assert forall|mx: int, my: int|
                    #[trigger] is_neighbor(cx, cy, mx, my) && in_bounds(d, mx, my) implies !hidden(
                    f,
                    mx,
                    my,
                ) by {
                    assert(!hidden(p, mx, my));
                    assert(f[my][mx].state == state_after_reveal(p, d, nx, ny, won, mx, my));
                }
            } else {
                assert(p[cy][cx].state == a[cy][cx].state);
                assert(hidden(p, cx, cy) && reachable(p, d, nx, ny, cx, cy));
                assert forall|mx: int, my: int|
                    #[trigger] is_neighbor(cx, cy, mx, my) && in_bounds(d, mx, my) implies !hidden(
                    f,
                    mx,
                    my,
                ) by {
                    assert(f[my][mx].state == state_after_reveal(p, d, nx, ny, won, mx, my));
                    lemma_opens_neighbor_safe(a, d, cx, cy, mx, my);
                    assert(p[my][mx].is_mine == a[my][mx].is_mine);
                    if hidden(p, mx, my) {
                        assert(opens(p, d, cx, cy));
                        lemma_reachable_extend(p, d, nx, ny, cx, cy, mx, my);
                    }
                }
            }
        }
        if all_safe_revealed(p, d) {
            assert forall|qx: int, qy: int|
                #![trigger f[qy][qx]]
                in_bounds(d, qx, qy) && !f[qy][qx].is_mine implies f[qy][qx].state
                    == CellState::Revealed by {
                assert(p[qy][qx].state == CellState::Revealed);
                assert(f[qy][qx].state == state_after_reveal(p, d, nx, ny, won, qx, qy));
            }
        }
        assert(revealed(f, x, y)) by {
            assert(f[y][x].state == state_after_reveal(p, d, nx, ny, won, x, y));
        }
    } else {
        assert(fv == pv);
    }
}

/// Once every neighbour of `(x, y)` is uncovered (or `(x, y)` does not open), the board
/// shows exactly what the reveal of `(x, y)` reaches.
pub proof fn lemma_spreading_done(a: Seq<Seq<Cell>>, c: Seq<Seq<Cell>>, d: Difficulty, x: int, y: int)
    requires
        spreading(a, c, d, x, y),
        counts_consistent(a, d),
        in_bounds(d, x, y),
        hidden(a, x, y),
        !a[y][x].is_mine,
        opens(a, d, x, y) ==> neighbors_uncovered(c, d, x, y),
    ensures
        forall|cx: int, cy: int|
            #![trigger c[cy][cx]]
            in_bounds(d, cx, cy) && !a[cy][cx].is_mine ==> c[cy][cx].state == if hidden(a, cx, cy)
                && reachable(a, d, x, y, cx, cy) {
                CellState::Revealed
            } else {
                a[cy][cx].state
            },
{
    assert forall|cx: int, cy: int|
        #![trigger c[cy][cx]]
        in_bounds(d, cx, cy) && !a[cy][cx].is_mine implies c[cy][cx].state == if hidden(a, cx, cy)
            && reachable(a, d, x, y, cx, cy) {
            CellState::Revealed
        } else {
            a[cy][cx].state
        } by {
        if hidden(a, cx, cy) && reachable(a, d, x, y, cx, cy) {
            assert forall|qx: int, qy: int|
                #![trigger c[qy][qx]]
                in_bounds(d, qx, qy) && !a[qy][qx].is_mine && hidden(a, qx, qy) && !hidden(c, qx, qy)
                    implies revealed(c, qx, qy) by {
                assert(c[qy][qx].state != a[qy][qx].state);
            }
            assert forall|qx: int, qy: int|
                #![trigger c[qy][qx]]
                in_bounds(d, qx, qy) && hidden(a, qx, qy) && revealed(c, qx, qy) && opens(a, d, qx, qy)
                    implies neighbors_uncovered(c, d, qx, qy) by {
                if qx == x && qy == y {
                } else {
                }
            }
            lemma_closed_region_complete(a, c, d, x, y, cx, cy);
        }
    }
}

/// What a reveal keeps while it spreads: the fields other than the board, and either
/// the state and flag count, or a win.
pub open spec fn spread_fields(v0: GameView, v: GameView) -> bool {
    &&& v.difficulty == v0.difficulty
    &&& v.cursor_x == v0.cursor_x
    &&& v.cursor_y == v0.cursor_y
    &&& v.timer_seconds == v0.timer_seconds
    &&& v.game_started == v0.game_started
    &&& !v.first_click
    &&& (v.state == v0.state && v.flags_remaining == v0.flags_remaining) || (v.state
        == GameState::Won && v.flags_remaining == 0 && all_safe_revealed(v.board, v.difficulty))
}

/// The board `a` on which a reveal of `(x, y)` starts: the old board with its mines laid.
pub open spec fn start_board(ov: GameView, a: Seq<Seq<Cell>>, x: int, y: int) -> bool {
    let d = ov.difficulty;
    &&& game_wf(ov)
    &&& in_bounds(d, x, y)
    &&& hidden(ov.board, x, y)
    &&& well_shaped(a, d)
    &&& counts_consistent(a, d)
    &&& hidden(a, x, y)
    &&& ov.first_click ==> mines_placed(ov.board, a, d, x, y) && first_reveal_clear(a, d, x, y)
    &&& !ov.first_click ==> a == ov.board
    &&& forall|cx: int, cy: int|
        #![trigger a[cy][cx]]
        in_bounds(d, cx, cy) ==> a[cy][cx].state == ov.board[cy][cx].state
}

pub(crate) proof fn lemma_start_board(ov: GameView, a: Seq<Seq<Cell>>, x: int, y: int)
    requires
        game_wf(ov),
        in_bounds(ov.difficulty, x, y),
        hidden(ov.board, x, y),
        ov.first_click ==> mines_placed(ov.board, a, ov.difficulty, x, y),
        !ov.first_click ==> a == ov.board,
    ensures
        start_board(ov, a, x, y),
{
    let d = ov.difficulty;
    if ov.first_click {
        lemma_first_reveal_safe(ov.board, a, d, x, y);
    }
}

/// After `(x, y)` is uncovered on the start board `a`, the reveal is spreading, it has
/// used up one hidden cell, and the mines lie as in `a`.
pub(crate) proof fn lemma_first_uncovered(ov: GameView, a: Seq<Seq<Cell>>, b1: Seq<Seq<Cell>>, x: int, y: int)
    requires
        start_board(ov, a, x, y),
        b1 == board_set(a, x, y, Cell { state: CellState::Revealed, ..a[y][x] }),
    ensures
        well_shaped(b1, ov.difficulty),
        same_layout(a, b1, ov.difficulty),
        counts_consistent(b1, ov.difficulty),
        hidden_shrinks(ov.board, b1),
        count_hidden(b1) < count_hidden(ov.board),
        !a[y][x].is_mine ==> spreading(a, b1, ov.difficulty, x, y),
{
    let d = ov.difficulty;
    assert forall|cx: int, cy: int|
        #![trigger b1[cy][cx]]
        in_bounds(d, cx, cy) implies b1[cy][cx].is_mine == a[cy][cx].is_mine
            && b1[cy][cx].adjacent_mines == a[cy][cx].adjacent_mines && (!(cx == x && cy == y)
            ==> b1[cy][cx] == a[cy][cx]) by {
        assert(a[cy].len() == d.cols);
    }
    lemma_layout_keeps_counts(a, b1, d);
    assert forall|cx: int, cy: int|
        #![trigger b1[cy][cx]]
        in_bounds(d, cx, cy) && hidden(b1, cx, cy) implies hidden(ov.board, cx, cy) by {
        assert(a[cy][cx].state == ov.board[cy][cx].state);
    }
    lemma_shrinks_in_bounds(ov.board, b1, d);
    lemma_count_hidden_lt(ov.board, b1, x, y);
    if !a[y][x].is_mine {
        lemma_reachable_self(a, d, x, y);
        assert forall|cx: int, cy: int|
            #![trigger b1[cy][cx]]
            in_bounds(d, cx, cy) && !a[cy][cx].is_mine && b1[cy][cx].state != a[cy][cx].state
                implies hidden(a, cx, cy) && revealed(b1, cx, cy) && reachable(a, d, x, y, cx, cy) by {
            assert(a[cy].len() == d.cols);
        }
        assert forall|cx: int, cy: int|
            #![trigger b1[cy][cx]]
            in_bounds(d, cx, cy) && !(cx == x && cy == y) && hidden(a, cx, cy) && revealed(b1, cx, cy)
                && opens(a, d, cx, cy) implies neighbors_uncovered(b1, d, cx, cy) by {
            assert(a[cy].len() == d.cols);
        }
    }
}

/// Revealing a mine: the game is lost and the mines are shown.
pub(crate) proof fn lemma_hit_result(ov: GameView, a: Seq<Seq<Cell>>, nv: GameView, x: int, y: int)
    requires
        start_board(ov, a, x, y),
        a[y][x].is_mine,
        nv == (GameView {
            state: GameState::Lost,
            board: map_cells(
                board_set(a, x, y, Cell { state: CellState::Revealed, ..a[y][x] }),
                |c: Cell| mine_shown(c),
            ),
            first_click: false,
            game_started: nv.game_started,
            ..ov
        }),
        if ov.first_click {
            nv.game_started is Some
        } else {
            nv.game_started == ov.game_started
        },
    ensures
        game_wf(nv),
        reveal_result(ov, nv, x, y),
        ov.first_click ==> first_reveal_clear(nv.board, ov.difficulty, x, y),
        hidden_shrinks(ov.board, nv.board),
        count_hidden(nv.board) <= count_hidden(ov.board),
{
    let d = ov.difficulty;
    let b1 = board_set(a, x, y, Cell { state: CellState::Revealed, ..a[y][x] });
    lemma_first_uncovered(ov, a, b1, x, y);
    let nb = nv.board;
    assert forall|cx: int, cy: int|
        #![trigger nb[cy][cx]]
        in_bounds(d, cx, cy) implies nb[cy][cx] == mine_shown(b1[cy][cx]) && nb[cy][cx].is_mine
            == a[cy][cx].is_mine && nb[cy][cx].adjacent_mines == a[cy][cx].adjacent_mines
            && nb[cy][cx].state == state_after_reveal(a, d, x, y, all_safe_revealed(nb, d), cx, cy) by {
        assert(a[cy].len() == d.cols);
        assert(b1[cy].len() == d.cols);
    }
    assert(same_layout(a, nb, d));
    lemma_layout_keeps_counts(a, nb, d);
    assert forall|cx: int, cy: int|
        #![trigger nb[cy][cx]]
        in_bounds(d, cx, cy) && hidden(nb, cx, cy) implies hidden(ov.board, cx, cy) by {
        assert(a[cy][cx].state == ov.board[cy][cx].state);
    }
    lemma_shrinks_in_bounds(ov.board, nb, d);
    lemma_count_hidden_le(ov.board, nb);
    if ov.first_click {
        lemma_with_states_same(a, ov.board, nb, d);
    }
}

/// After the `k`-th neighbour of `(x, y)` is revealed, it and the ones before it are
/// uncovered, and the board has no more hidden cells than when the reveal began.
pub(crate) proof fn lemma_neighbor_step(ov: GameView, pv0: GameView, pv: GameView, fv: GameView, x: int, y: int, k: int)
    requires
        0 <= k < 8,
        well_shaped(pv.board, pv.difficulty),
        well_shaped(fv.board, pv.difficulty),
        spread_fields(pv0, pv),
        fv.state == pv.state && fv.flags_remaining == pv.flags_remaining || (fv.state
            == GameState::Won && fv.flags_remaining == 0 && all_safe_revealed(fv.board, pv.difficulty)),
        fv.difficulty == pv.difficulty,
        fv.cursor_x == pv.cursor_x,
        fv.cursor_y == pv.cursor_y,
        fv.timer_seconds == pv.timer_seconds,
        fv.game_started == pv.game_started,
        !fv.first_click,
        in_bounds(pv.difficulty, x + offset_x(k), y + offset_y(k)) ==> !hidden(
            fv.board,
            x + offset_x(k),
            y + offset_y(k),
        ),
        forall|cx: int, cy: int|
            #![trigger fv.board[cy][cx]]
            in_bounds(pv.difficulty, cx, cy) && !hidden(pv.board, cx, cy) ==> !hidden(fv.board, cx, cy),
        forall|j: int|
            0 <= j < k && in_bounds(pv.difficulty, x + offset_x(j), y + offset_y(j)) ==> !hidden(
                pv.board,
                x + offset_x(j),
                y + offset_y(j),
            ),
        all_safe_revealed(pv.board, pv.difficulty) ==> all_safe_revealed(fv.board, pv.difficulty),
        hidden_shrinks(ov.board, pv.board),
        hidden_shrinks(pv.board, fv.board),
        count_hidden(pv.board) < count_hidden(ov.board),
    ensures
        spread_fields(pv0, fv),
        forall|j: int|
            0 <= j < k + 1 && in_bounds(pv.difficulty, x + offset_x(j), y + offset_y(j)) ==> !hidden(
                fv.board,
                x + offset_x(j),
                y + offset_y(j),
            ),
        hidden_shrinks(ov.board, fv.board),
        count_hidden(fv.board) < count_hidden(ov.board),
{
    let d = pv.difficulty;
    lemma_count_hidden_le(pv.board, fv.board);
    assert forall|j: int|
        0 <= j < k + 1 && in_bounds(d, x + offset_x(j), y + offset_y(j)) implies !hidden(
        fv.board,
        x + offset_x(j),
        y + offset_y(j),
    ) by {
        if j < k {
            assert(!hidden(pv.board, x + offset_x(j), y + offset_y(j)));
            assert(!hidden(fv.board, x + offset_x(j), y + offset_y(j)));
        }
    }
    assert forall|cx: int, cy: int|
        #![trigger fv.board[cy][cx]]
        0 <= cy < fv.board.len() && 0 <= cx < fv.board[cy].len() && fv.board[cy][cx].state
            == CellState::Hidden implies ov.board[cy][cx].state == CellState::Hidden by {
        assert(pv.board[cy].len() == fv.board[cy].len());
        assert(pv.board[cy][cx].state == CellState::Hidden);
    }
}

/// Once the eight offsets are done, the whole neighbourhood is uncovered.
pub(crate) proof fn lemma_all_neighbors_done(b: Seq<Seq<Cell>>, d: Difficulty, x: int, y: int)
    requires
        forall|j: int|
            0 <= j < 8 && in_bounds(d, x + offset_x(j), y + offset_y(j)) ==> !hidden(
                b,
                x + offset_x(j),
                y + offset_y(j),
            ),
    ensures
        neighbors_uncovered(b, d, x, y),
{
    assert forall|mx: int, my: int|
        #[trigger] is_neighbor(x, y, mx, my) && in_bounds(d, mx, my) implies !hidden(b, mx, my) by {
        let j = lemma_neighbor_has_offset(x, y, mx, my);
    }
}

/// A reveal that did not hit a mine ends with the check for a win.
pub(crate) proof fn lemma_spread_result(ov: GameView, a: Seq<Seq<Cell>>, pv0: GameView, cv: GameView, nv: GameView, x: int, y: int)
    requires
        start_board(ov, a, x, y),
        !a[y][x].is_mine,
        pv0 == (GameView {
            board: board_set(a, x, y, Cell { state: CellState::Revealed, ..a[y][x] }),
            first_click: false,
            game_started: pv0.game_started,
            ..ov
        }),
        if ov.first_click {
            pv0.game_started is Some
        } else {
            pv0.game_started == ov.game_started
        },
        spreading(a, cv.board, ov.difficulty, x, y),
        opens(a, ov.difficulty, x, y) ==> neighbors_uncovered(cv.board, ov.difficulty, x, y),
        spread_fields(pv0, cv),
        nv == win_checked(cv),
    ensures
        game_wf(nv),
        reveal_result(ov, nv, x, y),
        ov.first_click ==> first_reveal_clear(nv.board, ov.difficulty, x, y),
        hidden_shrinks(ov.board, nv.board),
        count_hidden(nv.board) <= count_hidden(ov.board),
{
    let d = ov.difficulty;
    let cb = cv.board;
    let nb = nv.board;
    lemma_spreading_done(a, cb, d, x, y);
    let won_c = all_safe_revealed(cb, d);
    assert forall|cx: int, cy: int|
        #![trigger nb[cy][cx]]
        in_bounds(d, cx, cy) implies nb[cy][cx] == (if won_c {
            mine_flagged(cb[cy][cx])
        } else {
            cb[cy][cx]
        }) by {
        assert(cb[cy].len() == d.cols);
    }
    assert(all_safe_revealed(nb, d) == won_c) by {
        if won_c {
            assert forall|cx: int, cy: int|
                #![trigger nb[cy][cx]]
                in_bounds(d, cx, cy) && !nb[cy][cx].is_mine implies nb[cy][cx].state
                    == CellState::Revealed by {
                assert(cb[cy][cx].state == CellState::Revealed);
            }
        }
    }
    assert forall|cx: int, cy: int|
        #![trigger nb[cy][cx]]
        in_bounds(d, cx, cy) implies nb[cy][cx].state == state_after_reveal(a, d, x, y, won_c, cx, cy)
            && nb[cy][cx].is_mine == a[cy][cx].is_mine && nb[cy][cx].adjacent_mines
            == a[cy][cx].adjacent_mines by {
        assert(cb[cy][cx].is_mine == a[cy][cx].is_mine);
    }
    assert(same_layout(a, nb, d));
    lemma_layout_keeps_counts(a, nb, d);
    assert forall|cx: int, cy: int|
        #![trigger nb[cy][cx]]
        in_bounds(d, cx, cy) && hidden(nb, cx, cy) implies hidden(ov.board, cx, cy) by {
        assert(a[cy][cx].state == ov.board[cy][cx].state);
        assert(nb[cy][cx].state == state_after_reveal(a, d, x, y, won_c, cx, cy));
    }
    lemma_shrinks_in_bounds(ov.board, nb, d);
    lemma_count_hidden_le(ov.board, nb);
    if ov.first_click {
        lemma_with_states_same(a, ov.board, nb, d);
    }
}

} // verus!
