//! The model of a game, and what each operation does to it.
use vstd::prelude::*;
use crate::board::{all_safe_revealed, counts_consistent, in_bounds, well_shaped};
use crate::cell::{Cell, CellState};
use crate::config::{Difficulty, GameState};
use crate::controls::{
    Action, Key, is_back, is_down, is_flag, is_leave, is_left, is_restart, is_right, is_up,
};
use crate::uncover::reveal_result;

verus! {

/// The largest board side for which the neighbour arithmetic stays in `i32`.
pub const MAX_SIDE: u32 = 0x7fff_ffff;

/// What a game is, as the contracts speak of it.
pub struct GameView {
    pub state: GameState,
    pub board: Seq<Seq<Cell>>,
    pub difficulty: Difficulty,
    pub cursor_x: usize,
    pub cursor_y: usize,
    pub flags_remaining: i32,
    pub timer_seconds: u32,
    /// When the clock was started, once the first cell has been revealed.
    pub game_started: Option<std::time::Instant>,
    /// No cell has been revealed yet, and no mine placed.
    pub first_click: bool,
}

/// `b` with cell `(x, y)` replaced by `c`.
pub open spec fn board_set(b: Seq<Seq<Cell>>, x: int, y: int, c: Cell) -> Seq<Seq<Cell>> {
    b.update(y, b[y].update(x, c))
}

/// Before the first reveal: no mine, and nothing revealed.
pub open spec fn untouched(b: Seq<Seq<Cell>>, d: Difficulty) -> bool {
    forall|x: int, y: int|
        #![trigger b[y][x]]
        in_bounds(d, x, y) ==> !b[y][x].is_mine && b[y][x].state != CellState::Revealed
}

/// The invariant of every game.
pub open spec fn game_wf(v: GameView) -> bool {
    &&& v.difficulty.rows <= MAX_SIDE
    &&& v.difficulty.cols <= MAX_SIDE
    &&& well_shaped(v.board, v.difficulty)
    &&& counts_consistent(v.board, v.difficulty)
    &&& v.first_click ==> untouched(v.board, v.difficulty)
    &&& (v.difficulty.rows > 0 && v.difficulty.cols > 0) ==> (v.cursor_x < v.difficulty.cols
        && v.cursor_y < v.difficulty.rows)
}

/// A game just created for difficulty `d`: every cell hidden and empty, the cursor in
/// the middle, one flag per mine, and the menu shown.
pub open spec fn is_new_game(v: GameView, d: Difficulty) -> bool {
    &&& v.state == GameState::Menu
    &&& v.difficulty == d
    &&& well_shaped(v.board, d)
    &&& forall|x: int, y: int|
        #![trigger v.board[y][x]]
        in_bounds(d, x, y) ==> v.board[y][x] == (Cell {
            state: CellState::Hidden,
            is_mine: false,
            adjacent_mines: 0,
        })
    &&& v.cursor_x == d.cols / 2
    &&& v.cursor_y == d.rows / 2
    &&& v.flags_remaining == d.mines as i32
    &&& v.timer_seconds == 0
    &&& v.game_started is None
    &&& v.first_click
}

/// A cell after the mines are shown: a mine that is not flagged is revealed.
pub open spec fn mine_shown(c: Cell) -> Cell {
    if c.is_mine && c.state != CellState::Flagged {
        Cell { state: CellState::Revealed, ..c }
    } else {
        c
    }
}

/// A cell after a win: every mine is flagged.
pub open spec fn mine_flagged(c: Cell) -> Cell {
    if c.is_mine && c.state != CellState::Flagged {
        Cell { state: CellState::Flagged, ..c }
    } else {
        c
    }
}

pub open spec fn map_cells(b: Seq<Seq<Cell>>, f: spec_fn(Cell) -> Cell) -> Seq<Seq<Cell>> {
    b.map_values(|r: Seq<Cell>| r.map_values(f))
}

/// The game after a flag is set on, or taken off, cell `(x, y)`.
pub open spec fn toggled(v: GameView, x: int, y: int) -> GameView {
    if !in_bounds(v.difficulty, x, y) {
        v
    } else if v.board[y][x].state == CellState::Hidden {
        GameView {
            board: board_set(v.board, x, y, Cell { state: CellState::Flagged, ..v.board[y][x] }),
            flags_remaining: (v.flags_remaining - 1) as i32,
            ..v
        }
    } else if v.board[y][x].state == CellState::Flagged {
        GameView {
            board: board_set(v.board, x, y, Cell { state: CellState::Hidden, ..v.board[y][x] }),
            flags_remaining: (v.flags_remaining + 1) as i32,
            ..v
        }
    } else {
        v
    }
}

/// The game after the check for a win: won, with every mine flagged and no flag left,
/// once every cell without a mine is revealed; unchanged otherwise.
pub open spec fn win_checked(v: GameView) -> GameView {
    if all_safe_revealed(v.board, v.difficulty) {
        GameView {
            state: GameState::Won,
            board: map_cells(v.board, |c: Cell| mine_flagged(c)),
            flags_remaining: 0,
            ..v
        }
    } else {
        v
    }
}

/// A flag can be toggled on `(x, y)` without the flag counter overflowing.
pub open spec fn can_toggle(v: GameView, x: int, y: int) -> bool {
    in_bounds(v.difficulty, x, y) ==> {
        &&& v.board[y][x].state == CellState::Hidden ==> v.flags_remaining > i32::MIN
        &&& v.board[y][x].state == CellState::Flagged ==> v.flags_remaining < i32::MAX
    }
}

/// The 3 x 3 square around the first cell revealed, where no mine may go.
pub open spec fn in_safe_zone(sx: int, sy: int, x: int, y: int) -> bool {
    sx - 1 <= x <= sx + 1 && sy - 1 <= y <= sy + 1
}

/// `s` lists, once each and in some order, every cell of the board outside the safe zone.
pub open spec fn is_mine_order(s: Seq<(usize, usize)>, d: Difficulty, sx: int, sy: int) -> bool {
    &&& s.no_duplicates()
    &&& forall|p: (usize, usize)|
        #[trigger] s.contains(p) <==> (in_bounds(d, p.0 as int, p.1 as int) && !in_safe_zone(
            sx,
            sy,
            p.0 as int,
            p.1 as int,
        ))
}

/// As many mines as the difficulty asks for, or as there are cells for them.
pub open spec fn mines_to_place(d: Difficulty, s: Seq<(usize, usize)>) -> int {
    if (d.mines as int) < s.len() {
        d.mines as int
    } else {
        s.len() as int
    }
}

/// The mines of `new` are those of `old` and the first cells of `s`.
pub open spec fn mines_from(old: Seq<Seq<Cell>>, new: Seq<Seq<Cell>>, d: Difficulty, s: Seq<(usize, usize)>) -> bool {
    forall|x: int, y: int|
        #![trigger new[y][x]]
        in_bounds(d, x, y) ==> new[y][x].is_mine == (old[y][x].is_mine || s.take(
            mines_to_place(d, s),
        ).contains((x as usize, y as usize)))
}

/// `new` is `old` with mines laid around the safe zone of `(sx, sy)`: the first cells of
/// a random order of the cells outside it, then every cell without a mine counting the
/// mines around it. What the player sees does not change.
pub open spec fn mines_placed(old: Seq<Seq<Cell>>, new: Seq<Seq<Cell>>, d: Difficulty, sx: int, sy: int) -> bool {
    &&& well_shaped(new, d)
    &&& exists|s: Seq<(usize, usize)>| #[trigger] is_mine_order(s, d, sx, sy) && mines_from(old, new, d, s)
    &&& forall|x: int, y: int|
        #![trigger new[y][x]]
        in_bounds(d, x, y) ==> new[y][x].state == old[y][x].state && (new[y][x].is_mine
            ==> new[y][x].adjacent_mines == old[y][x].adjacent_mines)
    &&& counts_consistent(new, d)
}

/// On a board with no mine yet, the mines laid around the first reveal leave its
/// 3 x 3 square clear.
pub proof fn lemma_first_reveal_safe(old: Seq<Seq<Cell>>, new: Seq<Seq<Cell>>, d: Difficulty, sx: int, sy: int)
    requires
        untouched(old, d),
        mines_placed(old, new, d, sx, sy),
    ensures
        forall|cx: int, cy: int|
            #![trigger new[cy][cx]]
            in_bounds(d, cx, cy) && in_safe_zone(sx, sy, cx, cy) ==> !new[cy][cx].is_mine,
{
    broadcast use vstd::seq_lib::group_seq_properties;

    let s = choose|s: Seq<(usize, usize)>| #[trigger] is_mine_order(s, d, sx, sy) && mines_from(old, new, d, s);
    assert forall|cx: int, cy: int|
        #![trigger new[cy][cx]]
        in_bounds(d, cx, cy) && in_safe_zone(sx, sy, cx, cy) implies !new[cy][cx].is_mine by {
        let p = (cx as usize, cy as usize);
        assert(!s.contains(p));
        assert(!s.take(mines_to_place(d, s)).contains(p));
        assert(!old[cy][cx].is_mine);
    }
}

/// No mine lies in the 3 x 3 square around `(x, y)`.
pub open spec fn first_reveal_clear(b: Seq<Seq<Cell>>, d: Difficulty, x: int, y: int) -> bool {
    forall|cx: int, cy: int|
        #![trigger b[cy][cx]]
        in_bounds(d, cx, cy) && in_safe_zone(x, y, cx, cy) ==> !b[cy][cx].is_mine
}

/// `v` with its timer left open: the clock may have moved.
pub open spec fn same_but_timer(v: GameView, w: GameView) -> bool {
    v == GameView { timer_seconds: v.timer_seconds, ..w }
}

/// A new game of difficulty `d`, on the playing screen.
pub open spec fn is_new_round(v: GameView, d: Difficulty) -> bool {
    is_new_game(GameView { state: GameState::Menu, ..v }, d) && v.state == GameState::Playing
}

/// The keys that, while playing, would make the game panic on this board are not pressed:
/// moving down or right, revealing or flagging on a board without cells, or a flag
/// counter at its limit.
pub open spec fn key_allowed(v: GameView, key: Key) -> bool {
    v.state == GameState::Playing ==> {
        &&& is_down(key) ==> v.difficulty.rows >= 1
        &&& is_right(key) ==> v.difficulty.cols >= 1
        &&& key == Key::Enter ==> v.difficulty.rows >= 1 && v.difficulty.cols >= 1
        &&& is_flag(key) ==> can_toggle(v, v.cursor_x as int, v.cursor_y as int)
    }
}

/// The game after `key` on the menu: the first three digits start a round of the easy,
/// medium or hard board; `4` or Esc leaves; other keys do nothing.
pub open spec fn menu_result(old: GameView, new: GameView, key: Key, a: Action) -> bool {
    if key == Key::Char('1') {
        is_new_round(new, Difficulty { rows: 9, cols: 9, mines: 10 }) && a == Action::Continue
    } else if key == Key::Char('2') {
        is_new_round(new, Difficulty { rows: 16, cols: 16, mines: 40 }) && a == Action::Continue
    } else if key == Key::Char('3') {
        is_new_round(new, Difficulty { rows: 16, cols: 30, mines: 99 }) && a == Action::Continue
    } else if is_leave(key) {
        new == old && a == Action::Quit
    } else {
        new == old && a == Action::Continue
    }
}

/// The game after `key` while playing, before the clock is read: the cursor moves inside
/// the board, Enter reveals the cell under the cursor unless it is already revealed,
/// space or `f` toggles its flag, `r` starts over and `q` or Esc goes back to the menu.
pub open spec fn play_result(old: GameView, new: GameView, key: Key) -> bool {
    let d = old.difficulty;
    if is_up(key) {
        new == GameView {
            cursor_y: if old.cursor_y > 0 {
                (old.cursor_y - 1) as usize
            } else {
                old.cursor_y
            },
            ..old
        }
    } else if is_down(key) {
        new == GameView {
            cursor_y: if old.cursor_y + 1 < d.rows {
                (old.cursor_y + 1) as usize
            } else {
                old.cursor_y
            },
            ..old
        }
    } else if is_left(key) {
        new == GameView {
            cursor_x: if old.cursor_x > 0 {
                (old.cursor_x - 1) as usize
            } else {
                old.cursor_x
            },
            ..old
        }
    } else if is_right(key) {
        new == GameView {
            cursor_x: if old.cursor_x + 1 < d.cols {
                (old.cursor_x + 1) as usize
            } else {
                old.cursor_x
            },
            ..old
        }
    } else if key == Key::Enter {
        if old.board[old.cursor_y as int][old.cursor_x as int].state == CellState::Revealed {
            new == old
        } else {
            reveal_result(old, new, old.cursor_x as int, old.cursor_y as int)
        }
    } else if is_flag(key) {
        new == toggled(old, old.cursor_x as int, old.cursor_y as int)
    } else if is_restart(key) {
        is_new_round(new, d)
    } else if is_back(key) {
        new == GameView { state: GameState::Menu, ..old }
    } else {
        new == old
    }
}

/// The game after `key` once a round is over: `r` starts over, `q` or Esc goes back to
/// the menu, other keys do nothing.
pub open spec fn over_result(old: GameView, new: GameView, key: Key) -> bool {
    if is_restart(key) {
        is_new_round(new, old.difficulty)
    } else if is_back(key) {
        new == GameView { state: GameState::Menu, ..old }
    } else {
        new == old
    }
}

} // verus!
