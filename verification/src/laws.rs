//! Properties of the game that span several operations.
use vstd::prelude::*;
use crate::board::{hidden, in_bounds, lemma_reachable_self};
use crate::cell::{Cell, CellColor, CellLook, CellState, Glyph, look_of, number_color};
use crate::config::{Difficulty, GameState};
use crate::rules::{
    GameView, can_toggle, map_cells, mine_flagged, mine_shown, win_checked, game_wf, in_safe_zone, is_mine_order, lemma_first_reveal_safe,
    mines_from, mines_placed, mines_to_place, toggled, untouched,
};
use crate::uncover::{reveal_result, state_after_reveal, with_states};

verus! {

/// The cells that hold a mine.
pub open spec fn mine_cells(b: Seq<Seq<Cell>>, d: Difficulty) -> Set<(usize, usize)> {
    Set::new(
        |p: (usize, usize)| in_bounds(d, p.0 as int, p.1 as int) && b[p.1 as int][p.0 as int].is_mine,
    )
}

/// The cells outside the 3 x 3 square around `(sx, sy)`, where mines may go.
pub open spec fn free_cells(d: Difficulty, sx: int, sy: int) -> Set<(usize, usize)> {
    Set::new(
        |p: (usize, usize)|
            in_bounds(d, p.0 as int, p.1 as int) && !in_safe_zone(sx, sy, p.0 as int, p.1 as int),
    )
}

/// Setting a flag and taking it off again gives back the same game, and the second
/// toggle is always allowed after the first.
pub proof fn lemma_toggle_twice(v: GameView, x: int, y: int)
    requires
        game_wf(v),
        can_toggle(v, x, y),
    ensures
        can_toggle(toggled(v, x, y), x, y),
        toggled(toggled(v, x, y), x, y) == v,
{
    if in_bounds(v.difficulty, x, y) {
        let c = v.board[y][x];
        if c.state == CellState::Hidden || c.state == CellState::Flagged {
            let w = toggled(v, x, y);
            let u = toggled(w, x, y);
            assert(v.board[y].len() == v.difficulty.cols);
            assert(u.board[y] =~= v.board[y]);
            assert(u.board =~= v.board);
        }
    }
}

/// Revealing a cell a second time changes nothing: once revealed, the cell is no
/// longer hidden.
pub proof fn lemma_reveal_twice(v: GameView, w: GameView, u: GameView, x: int, y: int)
    requires
        game_wf(v),
        reveal_result(v, w, x, y),
        reveal_result(w, u, x, y),
    ensures
        u == w,
{
    let d = v.difficulty;
    if in_bounds(d, x, y) && v.board[y][x].state == CellState::Hidden {
        let b0 = if v.first_click {
            with_states(w.board, v.board)
        } else {
            v.board
        };
        let won = all_safe(w);
        assert(w.board[y][x].state == state_after_reveal(b0, d, x, y, won, x, y));
        if v.first_click {
            assert(b0[y][x].state == v.board[y][x].state);
        }
        lemma_reachable_self(b0, d, x, y);
        assert(w.board[y][x].state != CellState::Hidden);
    }
}

spec fn all_safe(w: GameView) -> bool {
    crate::board::all_safe_revealed(w.board, w.difficulty)
}

pub open spec fn row_flags(r: Seq<Cell>) -> int
    decreases r.len(),
{
    if r.len() == 0 {
        0
    } else {
        row_flags(r.drop_last()) + if r.last().state == CellState::Flagged {
            1int
        } else {
            0int
        }
    }
}

/// The number of flags on the board.
pub open spec fn count_flags(b: Seq<Seq<Cell>>) -> int
    decreases b.len(),
{
    if b.len() == 0 {
        0
    } else {
        count_flags(b.drop_last()) + row_flags(b.last())
    }
}

proof fn lemma_row_flags_same(a: Seq<Cell>, b: Seq<Cell>)
    requires
        a.len() == b.len(),
        forall|i: int|
            0 <= i < a.len() ==> (#[trigger] a[i].state == CellState::Flagged) == (b[i].state
                == CellState::Flagged),
    ensures
        row_flags(a) == row_flags(b),
    decreases a.len(),
{
    if a.len() > 0 {
        lemma_row_flags_same(a.drop_last(), b.drop_last());
    }
}

proof fn lemma_row_flags_update(r: Seq<Cell>, i: int, c: Cell)
    requires
        0 <= i < r.len(),
    ensures
        row_flags(r.update(i, c)) == row_flags(r) - (if r[i].state == CellState::Flagged {
            1int
        } else {
            0int
        }) + (if c.state == CellState::Flagged {
            1int
        } else {
            0int
        }),
    decreases r.len(),
{
    let u = r.update(i, c);
    if i == r.len() - 1 {
        assert(u.drop_last() =~= r.drop_last());
    } else {
        assert(u.drop_last() =~= r.drop_last().update(i, c));
        lemma_row_flags_update(r.drop_last(), i, c);
    }
}

proof fn lemma_count_flags_same(a: Seq<Seq<Cell>>, b: Seq<Seq<Cell>>)
    requires
        a.len() == b.len(),
        forall|y: int| 0 <= y < a.len() ==> #[trigger] a[y].len() == b[y].len(),
        forall|x: int, y: int|
            #![trigger a[y][x]]
            0 <= y < a.len() && 0 <= x < a[y].len() ==> (a[y][x].state == CellState::Flagged) == (
            b[y][x].state == CellState::Flagged),
    ensures
        count_flags(a) == count_flags(b),
    decreases a.len(),
{
    if a.len() > 0 {
        let n = a.len() - 1;
        assert forall|x: int, y: int|
            #![trigger a.drop_last()[y][x]]
            0 <= y < a.drop_last().len() && 0 <= x < a.drop_last()[y].len() implies (
            a.drop_last()[y][x].state == CellState::Flagged) == (b.drop_last()[y][x].state
                == CellState::Flagged) by {
            assert(a[y][x] == a.drop_last()[y][x]);
        }
        lemma_count_flags_same(a.drop_last(), b.drop_last());
        lemma_row_flags_same(a[n], b[n]);
    }
}

proof fn lemma_count_flags_update(b: Seq<Seq<Cell>>, y: int, r: Seq<Cell>)
    requires
        0 <= y < b.len(),
    ensures
        count_flags(b.update(y, r)) == count_flags(b) - row_flags(b[y]) + row_flags(r),
    decreases b.len(),
{
    let u = b.update(y, r);
    if y == b.len() - 1 {
        assert(u.drop_last() =~= b.drop_last());
    } else {
        assert(u.drop_last() =~= b.drop_last().update(y, r));
        lemma_count_flags_update(b.drop_last(), y, r);
    }
}

/// Flags left plus flags set stays the same when a flag is toggled: the counter shown
/// in the header is the number of mines minus the flags on the board.
pub proof fn lemma_toggle_keeps_flag_balance(v: GameView, x: int, y: int)
    requires
        game_wf(v),
        can_toggle(v, x, y),
    ensures
        toggled(v, x, y).flags_remaining + count_flags(toggled(v, x, y).board) == v.flags_remaining
            + count_flags(v.board),
{
    if in_bounds(v.difficulty, x, y) {
        let c = v.board[y][x];
        if c.state == CellState::Hidden || c.state == CellState::Flagged {
            assert(v.board[y].len() == v.difficulty.cols);
            lemma_row_flags_update(v.board[y], x, Cell { state: if c.state == CellState::Hidden {
                CellState::Flagged
            } else {
                CellState::Hidden
            }, ..c });
            lemma_count_flags_update(v.board, y, v.board[y].update(x, Cell { state: if c.state
                == CellState::Hidden {
                CellState::Flagged
            } else {
                CellState::Hidden
            }, ..c }));
        }
    }
}

/// A reveal that does not win leaves the flags and the counter as they were.
pub proof fn lemma_reveal_keeps_flag_balance(v: GameView, w: GameView, x: int, y: int)
    requires
        game_wf(v),
        reveal_result(v, w, x, y),
        w == v || w.state == GameState::Lost || !crate::board::all_safe_revealed(w.board, v.difficulty),
    ensures
        w.flags_remaining + count_flags(w.board) == v.flags_remaining + count_flags(v.board),
{
    let d = v.difficulty;
    if w != v && in_bounds(d, x, y) && v.board[y][x].state == CellState::Hidden {
        let b0 = if v.first_click {
            with_states(w.board, v.board)
        } else {
            v.board
        };
        let won = all_safe(w);
        assert forall|cx: int, cy: int|
            #![trigger v.board[cy][cx]]
            0 <= cy < v.board.len() && 0 <= cx < v.board[cy].len() implies (v.board[cy][cx].state
                == CellState::Flagged) == (w.board[cy][cx].state == CellState::Flagged) by {
            assert(v.board[cy].len() == d.cols);
            assert(in_bounds(d, cx, cy));
            assert(w.board[cy][cx].state == state_after_reveal(b0, d, x, y, won, cx, cy));
            if v.first_click {
                assert(b0[cy][cx].state == v.board[cy][cx].state);
            }
        }
        assert forall|cy: int| 0 <= cy < v.board.len() implies #[trigger] v.board[cy].len()
            == w.board[cy].len() by {
            assert(v.board[cy].len() == d.cols);
        }
        lemma_count_flags_same(v.board, w.board);
    }
}

/// Checking for a win a second time changes nothing.
pub proof fn lemma_check_win_twice(v: GameView)
    requires
        crate::board::well_shaped(v.board, v.difficulty),
    ensures
        win_checked(win_checked(v)) == win_checked(v),
{
    let w = win_checked(v);
    if crate::board::all_safe_revealed(v.board, v.difficulty) {
        let b = v.board;
        let f = |c: Cell| mine_flagged(c);
        assert(crate::board::all_safe_revealed(w.board, w.difficulty)) by {
            assert forall|x: int, y: int|
                #![trigger w.board[y][x]]
                in_bounds(w.difficulty, x, y) && !w.board[y][x].is_mine implies w.board[y][x].state
                    == CellState::Revealed by {
                assert(b[y].len() == v.difficulty.cols);
                assert(b[y][x].state == CellState::Revealed);
            }
        }
        let u = win_checked(w);
        assert forall|y: int| 0 <= y < b.len() implies #[trigger] u.board[y] =~= w.board[y] by {}
        assert(u.board =~= w.board);
    }
}

/// Showing the mines a second time changes nothing.
pub proof fn lemma_show_mines_twice(b: Seq<Seq<Cell>>)
    ensures
        map_cells(map_cells(b, |c: Cell| mine_shown(c)), |c: Cell| mine_shown(c)) == map_cells(
            b,
            |c: Cell| mine_shown(c),
        ),
{
    let once = map_cells(b, |c: Cell| mine_shown(c));
    let twice = map_cells(once, |c: Cell| mine_shown(c));
    assert forall|y: int| 0 <= y < b.len() implies #[trigger] twice[y] =~= once[y] by {}
    assert(twice =~= once);
}

/// A flag goes on any hidden cell of the board, mine or not, before or after the first
/// reveal: the cell becomes flagged, the counter drops by one, and nothing else changes.
pub proof fn lemma_flag_hidden_cell(v: GameView, x: int, y: int)
    requires
        game_wf(v),
        in_bounds(v.difficulty, x, y),
        v.board[y][x].state == CellState::Hidden,
        can_toggle(v, x, y),
    ensures
        toggled(v, x, y).board[y][x].state == CellState::Flagged,
        toggled(v, x, y).board[y][x].is_mine == v.board[y][x].is_mine,
        toggled(v, x, y).board[y][x].adjacent_mines == v.board[y][x].adjacent_mines,
        toggled(v, x, y).flags_remaining == v.flags_remaining - 1,
        toggled(v, x, y).state == v.state,
        toggled(v, x, y).first_click == v.first_click,
        toggled(v, x, y).game_started == v.game_started,
        forall|cx: int, cy: int|
            #![trigger toggled(v, x, y).board[cy][cx]]
            in_bounds(v.difficulty, cx, cy) && !(cx == x && cy == y) ==> toggled(v, x, y).board[cy][cx]
                == v.board[cy][cx],
{
    assert(v.board[y].len() == v.difficulty.cols);
    assert forall|cx: int, cy: int|
        #![trigger toggled(v, x, y).board[cy][cx]]
        in_bounds(v.difficulty, cx, cy) && !(cx == x && cy == y) implies toggled(v, x, y).board[cy][cx]
            == v.board[cy][cx] by {
        assert(v.board[cy].len() == v.difficulty.cols);
    }
}

/// A flag comes off any flagged cell of the board: the cell is hidden again, the counter
/// rises by one, and nothing else changes.
pub proof fn lemma_unflag_cell(v: GameView, x: int, y: int)
    requires
        game_wf(v),
        in_bounds(v.difficulty, x, y),
        v.board[y][x].state == CellState::Flagged,
        can_toggle(v, x, y),
    ensures
        toggled(v, x, y).board[y][x].state == CellState::Hidden,
        toggled(v, x, y).board[y][x].is_mine == v.board[y][x].is_mine,
        toggled(v, x, y).board[y][x].adjacent_mines == v.board[y][x].adjacent_mines,
        toggled(v, x, y).flags_remaining == v.flags_remaining + 1,
        toggled(v, x, y).state == v.state,
        toggled(v, x, y).first_click == v.first_click,
        toggled(v, x, y).game_started == v.game_started,
        forall|cx: int, cy: int|
            #![trigger toggled(v, x, y).board[cy][cx]]
            in_bounds(v.difficulty, cx, cy) && !(cx == x && cy == y) ==> toggled(v, x, y).board[cy][cx]
                == v.board[cy][cx],
{
    assert(v.board[y].len() == v.difficulty.cols);
    assert forall|cx: int, cy: int|
        #![trigger toggled(v, x, y).board[cy][cx]]
        in_bounds(v.difficulty, cx, cy) && !(cx == x && cy == y) implies toggled(v, x, y).board[cy][cx]
            == v.board[cy][cx] by {
        assert(v.board[cy].len() == v.difficulty.cols);
    }
}

/// The cursor changes only how a hidden cell is drawn: a flag, a mine, a number or a
/// blank looks the same with or without it.
pub proof fn lemma_look_cursor_only_on_hidden(c: Cell)
    requires
        c.state != CellState::Hidden,
    ensures
        look_of(c, true) == look_of(c, false),
{
}

/// What each cell shows: a hidden cell is covered (marked where the cursor is), a flag
/// is a red `!`, a revealed mine a red `*` on dark grey, a revealed count its number in
/// its colour, and a revealed cell with no mine around it is blank.
pub proof fn lemma_look_shows_cell(c: Cell, is_cursor: bool)
    ensures
        c.state == CellState::Hidden ==> look_of(c, is_cursor).glyph == if is_cursor {
            Glyph::Cursor
        } else {
            Glyph::Covered
        },
        c.state == CellState::Flagged ==> look_of(c, is_cursor) == (CellLook {
            glyph: Glyph::Flag,
            fg: CellColor::Red,
            bg: CellColor::Reset,
        }),
        c.state == CellState::Revealed && c.is_mine ==> look_of(c, is_cursor) == (CellLook {
            glyph: Glyph::Mine,
            fg: CellColor::Red,
            bg: CellColor::DarkGray,
        }),
        c.state == CellState::Revealed && !c.is_mine && c.adjacent_mines > 0 ==> look_of(
            c,
            is_cursor,
        ).glyph == Glyph::Number(c.adjacent_mines) && look_of(c, is_cursor).fg == number_color(
            c.adjacent_mines,
        ),
        c.state == CellState::Revealed && !c.is_mine && c.adjacent_mines == 0 ==> look_of(
            c,
            is_cursor,
        ).glyph == Glyph::Blank,
        1 <= c.adjacent_mines <= 8 ==> number_color(c.adjacent_mines) != CellColor::Reset,
{
}

/// Mines laid around the first reveal on an empty board: as many as the difficulty asks
/// for, or as there are cells outside the safe square if that is fewer.
pub proof fn lemma_mines_placed_count(old: Seq<Seq<Cell>>, new: Seq<Seq<Cell>>, d: Difficulty, sx: int, sy: int)
    requires
        untouched(old, d),
        mines_placed(old, new, d, sx, sy),
    ensures
        free_cells(d, sx, sy).finite(),
        mine_cells(new, d).finite(),
        mine_cells(new, d).len() == if (d.mines as int) < free_cells(d, sx, sy).len() {
            d.mines as int
        } else {
            free_cells(d, sx, sy).len() as int
        },
{
    broadcast use vstd::seq_lib::group_seq_properties;
    broadcast use vstd::seq_lib::seq_to_set_is_finite;

    let s = choose|s: Seq<(usize, usize)>| #[trigger] is_mine_order(s, d, sx, sy) && mines_from(old, new, d, s);
    let k = mines_to_place(d, s);
    let t = s.take(k);
    assert(free_cells(d, sx, sy) =~= s.to_set());
    s.unique_seq_to_set();
    assert(t.no_duplicates()) by {
        assert forall|i: int, j: int| 0 <= i < t.len() && 0 <= j < t.len() && i != j implies t[i] != t[j] by {
            assert(t[i] == s[i]);
            assert(t[j] == s[j]);
        }
    }
    t.unique_seq_to_set();
    assert forall|p: (usize, usize)| #[trigger] mine_cells(new, d).contains(p) <==> t.to_set().contains(p) by {
        let x = p.0 as int;
        let y = p.1 as int;
        if t.contains(p) {
            assert(s.contains(p));
        }
        if in_bounds(d, x, y) {
            assert(new[y][x].is_mine == (old[y][x].is_mine || t.contains((x as usize, y as usize))));
            assert(!old[y][x].is_mine);
        }
    }
    assert(mine_cells(new, d) =~= t.to_set());
}

/// The first reveal of a game never hits a mine, and it lays as many mines as the
/// difficulty asks for (or as fit outside the 3 x 3 square around the cell).
pub proof fn lemma_first_reveal(v: GameView, w: GameView, x: int, y: int)
    requires
        game_wf(v),
        v.first_click,
        in_bounds(v.difficulty, x, y),
        v.board[y][x].state == CellState::Hidden,
        reveal_result(v, w, x, y),
    ensures
        !w.board[y][x].is_mine,
        w.state != GameState::Lost || v.state == GameState::Lost,
        mine_cells(w.board, v.difficulty).finite(),
        mine_cells(w.board, v.difficulty).len() == if (v.difficulty.mines as int) < free_cells(
            v.difficulty,
            x,
            y,
        ).len() {
            v.difficulty.mines as int
        } else {
            free_cells(v.difficulty, x, y).len() as int
        },
{
    let d = v.difficulty;
    let b0 = with_states(w.board, v.board);
    lemma_first_reveal_safe(v.board, b0, d, x, y);
    lemma_mines_placed_count(v.board, b0, d, x, y);
    assert(mine_cells(w.board, d) =~= mine_cells(b0, d));
}

} // verus!
