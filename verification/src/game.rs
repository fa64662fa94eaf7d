//! A game of minesweeper: its board, cursor, flags and clock, and the operations on it.
use vstd::prelude::*;
use crate::board::{
    adjacent_mine_count, all_safe_revealed, count_hidden, counts_consistent, hidden,
    hidden_shrinks, in_bounds, lemma_count_bound, lemma_count_hidden_le, lemma_count_same_mines,
    lemma_mines_among_all, lemma_offset_is_neighbor, lemma_shrinks_in_bounds, mine_at,
    mines_among_first, offset_x, offset_y, opens, revealed, same_layout, same_shape, well_shaped,
};
use crate::cell::{Cell, CellState};
use crate::config::{Difficulty, GameState};
use crate::controls::{Action, Key, is_back, is_restart};
use crate::shuffle::shuffle_positions;
use crate::rules::{
    GameView, MAX_SIDE, board_set, can_toggle, first_reveal_clear, game_wf, in_safe_zone,
    is_mine_order, is_new_game, key_allowed, map_cells, menu_result, mine_flagged, mine_shown,
    mines_from, mines_placed, mines_to_place, over_result, play_result, same_but_timer, toggled,
    win_checked,
};
use crate::uncover::{
    lemma_all_neighbors_done, lemma_first_uncovered, lemma_hit_result, lemma_neighbor_step,
    lemma_spread_result, lemma_spreading_step, lemma_start_board, reveal_result, spread_fields,
    spreading,
};

verus! {

pub struct Game {
    state: GameState,
    board: Vec<Vec<Cell>>,
    difficulty: Difficulty,
    cursor_x: usize,
    cursor_y: usize,
    flags_remaining: i32,
    timer_seconds: u32,
    game_started: Option<std::time::Instant>,
    first_click: bool,
}

impl View for Game {
    type V = GameView;

    closed spec fn view(&self) -> GameView {
        GameView {
            state: self.state,
            board: self.board@.map_values(|r: Vec<Cell>| r@),
            difficulty: self.difficulty,
            cursor_x: self.cursor_x,
            cursor_y: self.cursor_y,
            flags_remaining: self.flags_remaining,
            timer_seconds: self.timer_seconds,
            game_started: self.game_started,
            first_click: self.first_click,
        }
    }
}

/// The position of the `k`-th neighbour relative to a cell.
fn neighbor_offset(k: usize) -> (r: (i32, i32))
    requires
        k < 8,
    ensures
        r.0 == offset_x(k as int),
        r.1 == offset_y(k as int),
{
    if k == 0 {
        (-1, -1)
    } else if k == 1 {
        (0, -1)
    } else if k == 2 {
        (1, -1)
    } else if k == 3 {
        (-1, 0)
    } else if k == 4 {
        (1, 0)
    } else if k == 5 {
        (-1, 1)
    } else if k == 6 {
        (0, 1)
    } else {
        (1, 1)
    }
}

impl Game {
    pub open spec fn wf(&self) -> bool {
        game_wf(self@)
    }

    proof fn lemma_view_board(&self)
        ensures
            self@.board.len() == self.board@.len(),
            forall|y: int| 0 <= y < self.board@.len() ==> #[trigger] self@.board[y] == self.board@[y]@,
    {
    }

    /// Replaces one cell.
    fn set_cell(&mut self, x: usize, y: usize, c: Cell)
        requires
            y < old(self)@.board.len(),
            x < old(self)@.board[y as int].len(),
        ensures
            final(self)@ == (GameView {
                board: board_set(old(self)@.board, x as int, y as int, c),
                ..old(self)@
            }),
    {
        proof {
            self.lemma_view_board();
        }
        self.board[y][x] = c;
        proof {
            let nb = self.board@.map_values(|r: Vec<Cell>| r@);
            let ob = board_set(old(self)@.board, x as int, y as int, c);
            assert(nb[y as int] =~= ob[y as int]);
            assert(nb =~= ob);
        }
    }

    /// A new game on the menu screen.
    pub fn new(difficulty: Difficulty) -> (g: Game)
        requires
            difficulty.rows <= MAX_SIDE,
            difficulty.cols <= MAX_SIDE,
        ensures
            g.wf(),
            is_new_game(g@, difficulty),
    {
        let rows = difficulty.rows as usize;
        let cols = difficulty.cols as usize;
        let mut board: Vec<Vec<Cell>> = Vec::new();
        let mut j: usize = 0;
        while j < rows
            invariant
                j <= rows,
                rows == difficulty.rows,
                cols == difficulty.cols,
                board@.len() == j,
                forall|y: int|
                    0 <= y < j ==> (#[trigger] board@[y])@.len() == cols && forall|x: int|
                        0 <= x < cols ==> board@[y]@[x] == (Cell {
                            state: CellState::Hidden,
                            is_mine: false,
                            adjacent_mines: 0,
                        }),
            decreases rows - j,
        {
            let mut row: Vec<Cell> = Vec::new();
            let mut i: usize = 0;
            while i < cols
                invariant
                    i <= cols,
                    row@.len() == i,
                    forall|x: int|
                        0 <= x < i ==> #[trigger] row@[x] == (Cell {
                            state: CellState::Hidden,
                            is_mine: false,
                            adjacent_mines: 0,
                        }),
                decreases cols - i,
            {
                row.push(Cell::new());
                i += 1;
            }
            board.push(row);
            j += 1;
        }
        let g = Game {
            state: GameState::Menu,
            board,
            difficulty,
            cursor_x: cols / 2,
            cursor_y: rows / 2,
            flags_remaining: difficulty.mines as i32,
            timer_seconds: 0,
            game_started: None,
            first_click: true,
        };
        proof {
            g.lemma_view_board();
            let v = g@;
            assert forall|x: int, y: int| #![trigger v.board[y][x]] in_bounds(difficulty, x, y) implies v.board[y][x] == (Cell {
                state: CellState::Hidden,
                is_mine: false,
                adjacent_mines: 0,
            }) by {
                assert(v.board[y] == board@[y]@);
            }
            assert forall|x: int, y: int|
                #![trigger v.board[y][x]]
                in_bounds(difficulty, x, y) && !v.board[y][x].is_mine implies v.board[y][x].adjacent_mines
                == adjacent_mine_count(v.board, difficulty, x, y) by {
                assert(mine_at(v.board, difficulty, x - 1, y - 1) == 0);
                assert(mine_at(v.board, difficulty, x, y - 1) == 0);
                assert(mine_at(v.board, difficulty, x + 1, y - 1) == 0);
                assert(mine_at(v.board, difficulty, x - 1, y) == 0);
                assert(mine_at(v.board, difficulty, x + 1, y) == 0);
                assert(mine_at(v.board, difficulty, x - 1, y + 1) == 0);
                assert(mine_at(v.board, difficulty, x, y + 1) == 0);
                assert(mine_at(v.board, difficulty, x + 1, y + 1) == 0);
            }
        }
        g
    }

    /// Starts over with the same difficulty.
    pub fn reset(&mut self)
        requires
            old(self).wf(),
        ensures
            final(self).wf(),
            is_new_game(final(self)@, old(self)@.difficulty),
    {
        let difficulty = self.difficulty;
        *self = Self::new(difficulty);
    }

    /// How many of the eight cells around `(x, y)` hold a mine.
    pub fn count_adjacent_mines(&self, x: usize, y: usize) -> (count: u8)
        requires
            self@.difficulty.rows <= MAX_SIDE,
            self@.difficulty.cols <= MAX_SIDE,
            well_shaped(self@.board, self@.difficulty),
            x < MAX_SIDE,
            y < MAX_SIDE,
        ensures
            count == adjacent_mine_count(self@.board, self@.difficulty, x as int, y as int),
    {
        proof {
            self.lemma_view_board();
        }
        let ghost b = self@.board;
        let ghost d = self@.difficulty;
        let mut count: u8 = 0;
        let mut k: usize = 0;
        while k < 8
            invariant
                k <= 8,
                count <= k,
                count == mines_among_first(b, d, x as int, y as int, k as int),
                b == self@.board,
                d == self@.difficulty,
                self@.difficulty.rows <= MAX_SIDE,
                self@.difficulty.cols <= MAX_SIDE,
                well_shaped(b, d),
                x < MAX_SIDE,
                y < MAX_SIDE,
                self@.board.len() == self.board@.len(),
                forall|j: int| 0 <= j < self.board@.len() ==> #[trigger] self@.board[j] == self.board@[j]@,
            decreases 8 - k,
        {
            let (dx, dy) = neighbor_offset(k);
            let nx = x as i32 + dx;
            let ny = y as i32 + dy;
            if nx >= 0 && nx < self.difficulty.cols as i32 && ny >= 0 && ny < self.difficulty.rows as i32 {
                let nx = nx as usize;
                let ny = ny as usize;
                assert(self@.board[ny as int] == self.board@[ny as int]@);
                if self.board[ny][nx].is_mine {
                    count += 1;
                }
            }
            k += 1;
        }
        proof {
            lemma_mines_among_all(b, d, x as int, y as int);
        }
        count
    }
    /// Maps every cell through `f`, row by row.
    fn map_board(&mut self, Ghost(f): Ghost<spec_fn(Cell) -> Cell>, which: bool)
        requires
            well_shaped(old(self)@.board, old(self)@.difficulty),
            forall|c: Cell| #[trigger] f(c) == if which { mine_shown(c) } else { mine_flagged(c) },
        ensures
            final(self)@ == (GameView { board: map_cells(old(self)@.board, f), ..old(self)@ }),
    {
        let ghost ob = old(self)@.board;
        let n = self.board.len();
        let mut y: usize = 0;
        proof {
            self.lemma_view_board();
        }
        while y < n
            invariant
                y <= n,
                n == ob.len(),
                self@ == (GameView { board: self@.board, ..old(self)@ }),
                forall|c: Cell| #[trigger] f(c) == if which { mine_shown(c) } else { mine_flagged(c) },
                same_shape(ob, self@.board),
                forall|cy: int, cx: int|
                    #![trigger self@.board[cy][cx]]
                    0 <= cy < n && 0 <= cx < ob[cy].len() ==> self@.board[cy][cx] == if cy < y {
                        f(ob[cy][cx])
                    } else {
                        ob[cy][cx]
                    },
            decreases n - y,
        {
            proof {
                self.lemma_view_board();
            }
            let m = self.board[y].len();
            let mut x: usize = 0;
            while x < m
                invariant
                    x <= m,
                    y < n,
                    n == ob.len(),
                    m == ob[y as int].len(),
                    self@ == (GameView { board: self@.board, ..old(self)@ }),
                    forall|c: Cell| #[trigger] f(c) == if which { mine_shown(c) } else { mine_flagged(c) },
                    same_shape(ob, self@.board),
                    forall|cy: int, cx: int|
                        #![trigger self@.board[cy][cx]]
                        0 <= cy < n && 0 <= cx < ob[cy].len() ==> self@.board[cy][cx] == if cy < y
                            || (cy == y && cx < x) {
                            f(ob[cy][cx])
                        } else {
                            ob[cy][cx]
                        },
                decreases m - x,
            {
                proof {
                    self.lemma_view_board();
                }
                let c = self.board[y][x];
                if c.is_mine && c.state != CellState::Flagged {
                    if which {
                        self.set_cell(x, y, Cell { state: CellState::Revealed, ..c });
                    } else {
                        self.set_cell(x, y, Cell { state: CellState::Flagged, ..c });
                    }
                }
                x += 1;
            }
            y += 1;
        }
        proof {
            let nb = map_cells(ob, f);
            assert forall|cy: int| 0 <= cy < n implies #[trigger] self@.board[cy] =~= nb[cy] by {
                assert forall|cx: int| 0 <= cx < ob[cy].len() implies self@.board[cy][cx] == nb[cy][cx] by {
                    assert(self@.board[cy][cx] == f(ob[cy][cx]));
                }
            }
            assert(self@.board =~= nb);
        }
    }

    /// Uncovers every mine that carries no flag.
    pub fn reveal_all_mines(&mut self)
        requires
            well_shaped(old(self)@.board, old(self)@.difficulty),
        ensures
            old(self).wf() ==> final(self).wf(),
            final(self)@ == (GameView {
                board: map_cells(old(self)@.board, |c: Cell| mine_shown(c)),
                ..old(self)@
            }),
    {
        self.map_board(Ghost(|c: Cell| mine_shown(c)), true);
        proof {
            let ob = old(self)@.board;
            let d = old(self)@.difficulty;
            let nb = self@.board;
            assert forall|x: int, y: int| #![trigger nb[y][x]] in_bounds(d, x, y) implies nb[y][x]
                == mine_shown(ob[y][x]) by {}
            assert(same_layout(ob, nb, d));
            if game_wf(old(self)@) {
                assert forall|x: int, y: int| #![trigger nb[y][x]] in_bounds(d, x, y) && !nb[y][x].is_mine implies
                    nb[y][x].adjacent_mines == adjacent_mine_count(nb, d, x, y) by {
                    assert(ob[y][x].adjacent_mines == adjacent_mine_count(ob, d, x, y));
                    lemma_count_same_mines(ob, nb, d, x, y);
                }
                if old(self)@.first_click {
                    assert forall|x: int, y: int| #![trigger nb[y][x]] in_bounds(d, x, y) implies !nb[y][x].is_mine
                        && nb[y][x].state != CellState::Revealed by {
                        assert(!ob[y][x].is_mine && ob[y][x].state != CellState::Revealed);
                    }
                }
            }
        }
    }

    /// Whether every cell without a mine is revealed.
    fn safe_cells_all_revealed(&self) -> (r: bool)
        requires
            well_shaped(self@.board, self@.difficulty),
        ensures
            r == all_safe_revealed(self@.board, self@.difficulty),
    {
        let ghost ob = self@.board;
        let ghost d = self@.difficulty;
        let n = self.board.len();
        let mut y: usize = 0;
        proof {
            self.lemma_view_board();
        }
        while y < n
            invariant
                y <= n,
                n == ob.len(),
                ob == self@.board,
                d == self@.difficulty,
                well_shaped(ob, d),
                self@.board.len() == self.board@.len(),
                forall|j: int| 0 <= j < self.board@.len() ==> #[trigger] self@.board[j] == self.board@[j]@,
                forall|cx: int, cy: int|
                    #![trigger ob[cy][cx]]
                    0 <= cy < y && in_bounds(d, cx, cy) && !ob[cy][cx].is_mine ==> ob[cy][cx].state
                        == CellState::Revealed,
            decreases n - y,
        {
            let m = self.board[y].len();
            let mut x: usize = 0;
            while x < m
                invariant
                    x <= m,
                    y < n,
                    n == ob.len(),
                    m == ob[y as int].len(),
                    ob == self@.board,
                    d == self@.difficulty,
                    well_shaped(ob, d),
                    self@.board.len() == self.board@.len(),
                    forall|j: int| 0 <= j < self.board@.len() ==> #[trigger] self@.board[j] == self.board@[j]@,
                    forall|cx: int, cy: int|
                        #![trigger ob[cy][cx]]
                        (0 <= cy < y || (cy == y && 0 <= cx < x)) && in_bounds(d, cx, cy)
                            && !ob[cy][cx].is_mine ==> ob[cy][cx].state == CellState::Revealed,
                decreases m - x,
            {
                let c = self.board[y][x];
                if !c.is_mine && c.state != CellState::Revealed {
                    proof {
                        assert(ob[y as int][x as int] == c);
                    }
                    return false;
                }
                x += 1;
            }
            y += 1;
        }
        true
    }

    /// Declares the game won once every cell without a mine is revealed; then every
    /// mine is flagged and no flag is left.
    pub fn check_win(&mut self)
        requires
            well_shaped(old(self)@.board, old(self)@.difficulty),
        ensures
            old(self).wf() ==> final(self).wf(),
            final(self)@ == win_checked(old(self)@),
            !all_safe_revealed(old(self)@.board, old(self)@.difficulty) ==> *final(self) == *old(self),
    {
        let ghost ob = old(self)@.board;
        let ghost d = old(self)@.difficulty;
        if !self.safe_cells_all_revealed() {
            return;
        }
        self.state = GameState::Won;
        self.map_board(Ghost(|c: Cell| mine_flagged(c)), false);
        self.flags_remaining = 0;
        proof {
            let nb = self@.board;
            assert forall|x: int, y: int| #![trigger nb[y][x]] in_bounds(d, x, y) implies nb[y][x]
                == mine_flagged(ob[y][x]) by {}
            if game_wf(old(self)@) {
                assert forall|x: int, y: int| #![trigger nb[y][x]] in_bounds(d, x, y) && !nb[y][x].is_mine implies
                    nb[y][x].adjacent_mines == adjacent_mine_count(nb, d, x, y) by {
                    assert(ob[y][x].adjacent_mines == adjacent_mine_count(ob, d, x, y));
                    lemma_count_same_mines(ob, nb, d, x, y);
                }
                if old(self)@.first_click {
                    assert forall|x: int, y: int| #![trigger nb[y][x]] in_bounds(d, x, y) implies !nb[y][x].is_mine
                        && nb[y][x].state != CellState::Revealed by {
                        assert(!ob[y][x].is_mine && ob[y][x].state != CellState::Revealed);
                    }
                }
            }
        }
    }

    /// Puts a flag on a hidden cell or takes it off a flagged one, and counts the flags
    /// left; does nothing to a revealed cell or outside the board.
    pub fn toggle_flag(&mut self, x: usize, y: usize)
        requires
            old(self).wf(),
            can_toggle(old(self)@, x as int, y as int),
        ensures
            final(self).wf(),
            final(self)@ == toggled(old(self)@, x as int, y as int),
            in_bounds(old(self)@.difficulty, x as int, y as int) && old(self)@.board[y as int][x as int].state
                == CellState::Hidden ==> final(self)@.board[y as int][x as int] == (Cell {
                state: CellState::Flagged,
                ..old(self)@.board[y as int][x as int]
            }) && final(self)@.flags_remaining == old(self)@.flags_remaining - 1,
            in_bounds(old(self)@.difficulty, x as int, y as int) && old(self)@.board[y as int][x as int].state
                == CellState::Flagged ==> final(self)@.board[y as int][x as int] == (Cell {
                state: CellState::Hidden,
                ..old(self)@.board[y as int][x as int]
            }) && final(self)@.flags_remaining == old(self)@.flags_remaining + 1,
            (x >= old(self)@.difficulty.cols || y >= old(self)@.difficulty.rows
                || old(self)@.board[y as int][x as int].state == CellState::Revealed) ==> *final(self)
                == *old(self),
    {
        if x >= self.difficulty.cols as usize || y >= self.difficulty.rows as usize {
            return;
        }
        proof {
            self.lemma_view_board();
        }
        let c = self.board[y][x];
        match c.state {
            CellState::Hidden => {
                self.set_cell(x, y, Cell { state: CellState::Flagged, ..c });
                self.flags_remaining -= 1;
            },
            CellState::Flagged => {
                self.set_cell(x, y, Cell { state: CellState::Hidden, ..c });
                self.flags_remaining += 1;
            },
            _ => {},
        }
        proof {
            let ob = old(self)@.board;
            let d = old(self)@.difficulty;
            let nb = self@.board;
            assert forall|cx: int, cy: int| #![trigger nb[cy][cx]] in_bounds(d, cx, cy) implies nb[cy][cx].is_mine
                == ob[cy][cx].is_mine && nb[cy][cx].adjacent_mines == ob[cy][cx].adjacent_mines by {
                assert(ob[cy].len() == d.cols);
            }
            assert forall|cx: int, cy: int| #![trigger nb[cy][cx]] in_bounds(d, cx, cy) && !nb[cy][cx].is_mine implies
                nb[cy][cx].adjacent_mines == adjacent_mine_count(nb, d, cx, cy) by {
                assert(ob[cy].len() == d.cols);
                assert(ob[cy][cx].adjacent_mines == adjacent_mine_count(ob, d, cx, cy));
                lemma_count_same_mines(ob, nb, d, cx, cy);
            }
            if old(self)@.first_click {
                assert forall|cx: int, cy: int| #![trigger nb[cy][cx]] in_bounds(d, cx, cy) implies !nb[cy][cx].is_mine
                    && nb[cy][cx].state != CellState::Revealed by {
                    assert(ob[cy].len() == d.cols);
                    assert(!ob[cy][cx].is_mine && ob[cy][cx].state != CellState::Revealed);
                }
            }
        }
    }

    /// Updates the seconds shown once the clock runs: the whole seconds since the first
    /// reveal, as the clock reads them. What the clock reads is not modelled, so the new
    /// value is left open here; `show_elapsed` states what is done with the reading.
    pub fn update_timer(&mut self)
        requires
            old(self).wf(),
        ensures
            final(self).wf(),
            final(self)@ == (GameView { timer_seconds: final(self)@.timer_seconds, ..old(self)@ }),
            old(self)@.game_started is None ==> final(self)@.timer_seconds == old(self)@.timer_seconds,
    {
        if let Some(start) = self.game_started {
            let secs = start.elapsed().as_secs();
            self.show_elapsed(secs);
        }
    }

    /// Shows `secs` seconds on the clock, cut to 32 bits, once the clock has been
    /// started; before that the clock stays as it is.
    pub fn show_elapsed(&mut self, secs: u64)
        requires
            old(self).wf(),
        ensures
            final(self).wf(),
            final(self)@ == (GameView {
                timer_seconds: if old(self)@.game_started is Some {
                    secs as u32
                } else {
                    old(self)@.timer_seconds
                },
                ..old(self)@
            }),
    {
        if self.game_started.is_some() {
            self.timer_seconds = secs as u32;
        }
    }

    /// Lays the mines after the first reveal at `(safe_x, safe_y)`: none in the 3 x 3
    /// square around it, the rest in random cells, then counts for every other cell the
    /// mines around it.
    pub fn place_mines(&mut self, safe_x: usize, safe_y: usize)
        requires
            old(self)@.difficulty.rows <= MAX_SIDE,
            old(self)@.difficulty.cols <= MAX_SIDE,
            well_shaped(old(self)@.board, old(self)@.difficulty),
            safe_x < usize::MAX,
            safe_y < usize::MAX,
        ensures
            final(self)@ == (GameView { board: final(self)@.board, ..old(self)@ }),
            mines_placed(
                old(self)@.board,
                final(self)@.board,
                old(self)@.difficulty,
                safe_x as int,
                safe_y as int,
            ),
    {
        broadcast use vstd::seq_lib::group_seq_properties;

        let ghost ob = old(self)@.board;
        let ghost d = old(self)@.difficulty;
        let ghost sx = safe_x as int;
        let ghost sy = safe_y as int;
        let rows = self.difficulty.rows as usize;
        let cols = self.difficulty.cols as usize;
        let mut positions: Vec<(usize, usize)> = Vec::new();
        let mut y: usize = 0;
        while y < rows
            invariant
                d == old(self)@.difficulty,
                ob == old(self)@.board,
                well_shaped(ob, d),
                y <= rows,
                rows == d.rows,
                cols == d.cols,
                safe_x < usize::MAX,
                safe_y < usize::MAX,
                sx == safe_x,
                sy == safe_y,
                positions@.no_duplicates(),
                forall|p: (usize, usize)|
                    #[trigger] positions@.contains(p) <==> (in_bounds(d, p.0 as int, p.1 as int)
                        && !in_safe_zone(sx, sy, p.0 as int, p.1 as int) && p.1 < y),
            decreases rows - y,
        {
            let mut x: usize = 0;
            while x < cols
                invariant
                    d == old(self)@.difficulty,
                    ob == old(self)@.board,
                    well_shaped(ob, d),
                    x <= cols,
                    y < rows,
                    rows == d.rows,
                    cols == d.cols,
                    safe_x < usize::MAX,
                    safe_y < usize::MAX,
                    sx == safe_x,
                    sy == safe_y,
                    positions@.no_duplicates(),
                    forall|p: (usize, usize)|
                        #[trigger] positions@.contains(p) <==> (in_bounds(d, p.0 as int, p.1 as int)
                            && !in_safe_zone(sx, sy, p.0 as int, p.1 as int) && (p.1 < y || (p.1
                            == y && p.0 < x))),
                decreases cols - x,
            {
                let is_safe = x >= safe_x.saturating_sub(1) && x <= safe_x + 1 && y
                    >= safe_y.saturating_sub(1) && y <= safe_y + 1;
                assert(is_safe == in_safe_zone(sx, sy, x as int, y as int));
                let ghost prev = positions@;
                if !is_safe {
                    let ghost before = positions@;
                    assert(!before.contains((x, y)));
                    positions.push((x, y));
                    assert forall|i: int, j: int|
                        0 <= i < positions@.len() && 0 <= j < positions@.len() && i != j implies positions@[i]
                        != positions@[j] by {
                        if i < before.len() && j < before.len() {
                            assert(before[i] != before[j]);
                        } else if i < before.len() {
                            assert(before.contains(before[i]));
                        } else {
                            assert(before.contains(before[j]));
                        }
                    }
                }
                proof {
                    assert forall|p: (usize, usize)|
                        #[trigger] positions@.contains(p) <==> (in_bounds(d, p.0 as int, p.1 as int)
                            && !in_safe_zone(sx, sy, p.0 as int, p.1 as int) && (p.1 < y || (p.1
                            == y && p.0 < x + 1))) by {
                        if !is_safe {
                            assert(positions@ == prev.push((x, y)));
                            if p != (x, y) {
                                vstd::seq_lib::lemma_seq_contains_after_push(prev, (x, y), p);
                            } else {
                                assert(positions@[prev.len() as int] == p);
                            }
                        }
                    }
                }
                x += 1;
            }
            y += 1;
        }
        let ghost ordered = positions@;
        shuffle_positions(&mut positions);
        proof {
            broadcast use vstd::multiset::group_multiset_axioms;
            ordered.lemma_multiset_has_no_duplicates();
            assert forall|p: (usize, usize)| #[trigger] positions@.contains(p) <==> ordered.contains(p) by {
                assert(positions@.to_multiset().count(p) == ordered.to_multiset().count(p));
            }
            positions@.lemma_multiset_has_no_duplicates_conv();
            assert(is_mine_order(positions@, d, sx, sy));
        }
        let mines_wanted = self.difficulty.mines as usize;
        let limit = if mines_wanted < positions.len() {
            mines_wanted
        } else {
            positions.len()
        };
        assert(limit == mines_to_place(d, positions@));
        let mut i: usize = 0;
        proof {
            self.lemma_view_board();
        }
        while i < limit
            invariant
                d == old(self)@.difficulty,
                ob == old(self)@.board,
                well_shaped(ob, d),
                i <= limit,
                limit <= positions@.len(),
                is_mine_order(positions@, d, sx, sy),
                self@ == (GameView { board: self@.board, ..old(self)@ }),
                well_shaped(self@.board, d),
                forall|x: int, y: int|
                    #![trigger self@.board[y][x]]
                    in_bounds(d, x, y) ==> self@.board[y][x].state == ob[y][x].state
                        && self@.board[y][x].adjacent_mines == ob[y][x].adjacent_mines
                        && self@.board[y][x].is_mine == (ob[y][x].is_mine || positions@.take(
                        i as int,
                    ).contains((x as usize, y as usize))),
            decreases limit - i,
        {
            let (px, py) = positions[i];
            assert(positions@.contains((px, py)));
            proof {
                self.lemma_view_board();
                assert(in_bounds(d, px as int, py as int));
                assert(py < self.board@.len());
                assert(self@.board[py as int].len() == d.cols);
                assert(px < self.board@[py as int]@.len());
            }
            let c = self.board[py][px];
            let ghost pb = self@.board;
            self.set_cell(px, py, Cell { is_mine: true, ..c });
            proof {
                assert(positions@.take(i + 1) =~= positions@.take(i as int).push((px, py)));
                assert forall|x: int, y: int|
                    #![trigger self@.board[y][x]]
                    in_bounds(d, x, y) implies self@.board[y][x].state == ob[y][x].state
                        && self@.board[y][x].adjacent_mines == ob[y][x].adjacent_mines
                        && self@.board[y][x].is_mine == (ob[y][x].is_mine || positions@.take(
                        i + 1,
                    ).contains((x as usize, y as usize))) by {
                    vstd::seq_lib::lemma_seq_contains_after_push(
                        positions@.take(i as int),
                        (px, py),
                        (x as usize, y as usize),
                    );
                    if x == px && y == py {
                    } else {
                        assert((x as usize, y as usize) != (px, py));
                        assert(self@.board[y][x] == pb[y][x]);
                    }
                }
            }
            i += 1;
        }
        let ghost mb = self@.board;
        proof {
            assert(mines_from(ob, mb, d, positions@));
        }
        let mut y: usize = 0;
        while y < rows
            invariant
                d == old(self)@.difficulty,
                ob == old(self)@.board,
                well_shaped(ob, d),
                y <= rows,
                rows == d.rows,
                cols == d.cols,
                d.rows <= MAX_SIDE,
                d.cols <= MAX_SIDE,
                self@ == (GameView { board: self@.board, ..old(self)@ }),
                well_shaped(mb, d),
                well_shaped(self@.board, d),
                forall|x: int, y: int|
                    #![trigger self@.board[y][x]]
                    in_bounds(d, x, y) ==> self@.board[y][x].state == mb[y][x].state
                        && self@.board[y][x].is_mine == mb[y][x].is_mine,
                forall|cx: int, cy: int|
                    #![trigger self@.board[cy][cx]]
                    in_bounds(d, cx, cy) ==> self@.board[cy][cx].adjacent_mines == if cy < y
                        && !mb[cy][cx].is_mine {
                        adjacent_mine_count(mb, d, cx, cy) as u8
                    } else {
                        mb[cy][cx].adjacent_mines
                    },
            decreases rows - y,
        {
            let mut x: usize = 0;
            while x < cols
                invariant
                    d == old(self)@.difficulty,
                    ob == old(self)@.board,
                    well_shaped(ob, d),
                    x <= cols,
                    y < rows,
                    rows == d.rows,
                    cols == d.cols,
                    d.rows <= MAX_SIDE,
                    d.cols <= MAX_SIDE,
                    self@ == (GameView { board: self@.board, ..old(self)@ }),
                    well_shaped(mb, d),
                    well_shaped(self@.board, d),
                    forall|x: int, y: int|
                        #![trigger self@.board[y][x]]
                        in_bounds(d, x, y) ==> self@.board[y][x].state == mb[y][x].state
                            && self@.board[y][x].is_mine == mb[y][x].is_mine,
                    forall|cx: int, cy: int|
                        #![trigger self@.board[cy][cx]]
                        in_bounds(d, cx, cy) ==> self@.board[cy][cx].adjacent_mines == if (cy < y
                            || (cy == y && cx < x)) && !mb[cy][cx].is_mine {
                            adjacent_mine_count(mb, d, cx, cy) as u8
                        } else {
                            mb[cy][cx].adjacent_mines
                        },
                decreases cols - x,
            {
                proof {
                    self.lemma_view_board();
                }
                assert(self@.board[y as int].len() == d.cols);
                let c = self.board[y][x];
                if !c.is_mine {
                    let n = self.count_adjacent_mines(x, y);
                    proof {
                        lemma_count_same_mines(mb, self@.board, d, x as int, y as int);
                    }
                    self.set_cell(x, y, Cell { adjacent_mines: n, ..c });
                }
                x += 1;
            }
            y += 1;
        }
        proof {
            let nb = self@.board;
            assert forall|x: int, y: int|
                #![trigger nb[y][x]]
                in_bounds(d, x, y) && !nb[y][x].is_mine implies nb[y][x].adjacent_mines
                == adjacent_mine_count(nb, d, x, y) by {
                lemma_count_same_mines(mb, nb, d, x, y);
                lemma_count_bound(mb, d, x, y);
            }
            assert(mines_from(ob, nb, d, positions@));
        }
    }
    /// Reveals cell `(x, y)`. The first reveal lays the mines around it and starts the
    /// clock. A mine loses the game and shows every mine without a flag; a cell with no
    /// mine around it reveals its neighbours in turn; revealing the last cell without a
    /// mine wins the game.
    pub fn reveal_cell(&mut self, x: usize, y: usize)
        requires
            old(self).wf(),
        ensures
            final(self).wf(),
            reveal_result(old(self)@, final(self)@, x as int, y as int),
            (x >= old(self)@.difficulty.cols || y >= old(self)@.difficulty.rows
                || old(self)@.board[y as int][x as int].state != CellState::Hidden) ==> *final(self)
                == *old(self),
            old(self)@.first_click ==> first_reveal_clear(final(self)@.board, old(self)@.difficulty, x as int, y as int),
            hidden_shrinks(old(self)@.board, final(self)@.board),
            count_hidden(final(self)@.board) <= count_hidden(old(self)@.board),
        decreases count_hidden(old(self)@.board),
    {
        let ghost ov = self@;
        let ghost d = self@.difficulty;
        if x >= self.difficulty.cols as usize || y >= self.difficulty.rows as usize {
            proof {
                lemma_count_hidden_le(ov.board, ov.board);
            }
            return;
        }
        proof {
            self.lemma_view_board();
            assert(self@.board[y as int].len() == d.cols);
        }
        let st = self.board[y][x].state;
        if st == CellState::Revealed || st == CellState::Flagged {
            proof {
                lemma_shrinks_in_bounds(ov.board, ov.board, d);
                lemma_count_hidden_le(ov.board, ov.board);
            }
            return;
        }
        if self.first_click {
            self.first_click = false;
            self.place_mines(x, y);
            self.game_started = Some(std::time::Instant::now());
        }
        let ghost a = self@.board;
        proof {
            lemma_start_board(ov, a, x as int, y as int);
            self.lemma_view_board();
        }
        let c = self.board[y][x];
        let is_mine = c.is_mine;
        self.set_cell(x, y, Cell { state: CellState::Revealed, ..c });
        proof {
            lemma_first_uncovered(ov, a, self@.board, x as int, y as int);
        }
        if is_mine {
            self.state = GameState::Lost;
            self.reveal_all_mines();
            proof {
                lemma_hit_result(ov, a, self@, x as int, y as int);
            }
            return;
        }
        let ghost pv0 = self@;
        if c.adjacent_mines == 0 {
            let mut k: usize = 0;
            while k < 8
                invariant
                    k <= 8,
                    self.wf(),
                    d == self@.difficulty,
                    x < d.cols,
                    y < d.rows,
                    d.cols <= MAX_SIDE,
                    d.rows <= MAX_SIDE,
                    well_shaped(a, d),
                    counts_consistent(a, d),
                    opens(a, d, x as int, y as int),
                    hidden(a, x as int, y as int),
                    spreading(a, self@.board, d, x as int, y as int),
                    spread_fields(pv0, self@),
                    forall|j: int|
                        0 <= j < k && in_bounds(d, x + offset_x(j), y + offset_y(j)) ==> !hidden(
                            self@.board,
                            x + offset_x(j),
                            y + offset_y(j),
                        ),
                    count_hidden(self@.board) < count_hidden(old(self)@.board),
                    hidden_shrinks(old(self)@.board, self@.board),
                decreases 8 - k,
            {
                let (dx, dy) = neighbor_offset(k);
                let nx = x as i32 + dx;
                let ny = y as i32 + dy;
                if nx >= 0 && nx < self.difficulty.cols as i32 && ny >= 0 && ny < self.difficulty.rows as i32 {
                    let ghost pv = self@;
                    proof {
                        lemma_offset_is_neighbor(k as int);
                    }
                    self.reveal_cell(nx as usize, ny as usize);
                    proof {
                        lemma_spreading_step(a, pv, self@, d, x as int, y as int, nx as int, ny as int);
                        lemma_neighbor_step(old(self)@, pv0, pv, self@, x as int, y as int, k as int);
                    }
                }
                k += 1;
            }
            proof {
                lemma_all_neighbors_done(self@.board, d, x as int, y as int);
            }
        }
        let ghost cv = self@;
        self.check_win();
        proof {
            lemma_spread_result(ov, a, pv0, cv, self@, x as int, y as int);
        }
    }
    /// Reacts to one key, as the game loop does, and says whether to go on. While
    /// playing, the clock is read after every key.
    pub fn handle_key(&mut self, key: Key) -> (a: Action)
        requires
            old(self).wf(),
            key_allowed(old(self)@, key),
        ensures
            final(self).wf(),
            old(self)@.state == GameState::Menu ==> menu_result(old(self)@, final(self)@, key, a),
            old(self)@.state == GameState::Playing ==> a == Action::Continue && exists|mid: GameView|
                #[trigger] play_result(old(self)@, mid, key) && same_but_timer(final(self)@, mid) && (
                mid.game_started is None ==> final(self)@.timer_seconds == mid.timer_seconds),
            (old(self)@.state == GameState::Won || old(self)@.state == GameState::Lost) ==> a
                == Action::Continue && over_result(old(self)@, final(self)@, key),
            old(self)@.state == GameState::Menu && key != Key::Char('1') && key != Key::Char('2')
                && key != Key::Char('3') ==> *final(self) == *old(self),
            (old(self)@.state == GameState::Won || old(self)@.state == GameState::Lost)
                && !is_restart(key) && !is_back(key) ==> *final(self) == *old(self),
    {
        match self.state {
            GameState::Menu => self.menu_key(key),
            GameState::Playing => {
                self.play_key(key);
                self.update_timer();
                Action::Continue
            },
            GameState::Won | GameState::Lost => {
                self.over_key(key);
                Action::Continue
            },
        }
    }

    fn menu_key(&mut self, key: Key) -> (a: Action)
        requires
            old(self).wf(),
        ensures
            final(self).wf(),
            menu_result(old(self)@, final(self)@, key, a),
            key != Key::Char('1') && key != Key::Char('2') && key != Key::Char('3') ==> *final(self)
                == *old(self),
    {
        match key {
            Key::Char('1') => {
                *self = Game::new(Difficulty::easy());
                self.state = GameState::Playing;
            },
            Key::Char('2') => {
                *self = Game::new(Difficulty::medium());
                self.state = GameState::Playing;
            },
            Key::Char('3') => {
                *self = Game::new(Difficulty::hard());
                self.state = GameState::Playing;
            },
            Key::Char('4') | Key::Esc => {
                return Action::Quit;
            },
            _ => {},
        }
        Action::Continue
    }

    fn play_key(&mut self, key: Key)
        requires
            old(self).wf(),
            old(self)@.state == GameState::Playing,
            key_allowed(old(self)@, key),
        ensures
            final(self).wf(),
            play_result(old(self)@, final(self)@, key),
    {
        match key {
            Key::Char('w') | Key::Up => {
                if self.cursor_y > 0 {
                    self.cursor_y -= 1;
                }
            },
            Key::Char('s') | Key::Down => {
                if self.cursor_y < self.difficulty.rows as usize - 1 {
                    self.cursor_y += 1;
                }
            },
            Key::Char('a') | Key::Left => {
                if self.cursor_x > 0 {
                    self.cursor_x -= 1;
                }
            },
            Key::Char('d') | Key::Right => {
                if self.cursor_x < self.difficulty.cols as usize - 1 {
                    self.cursor_x += 1;
                }
            },
            Key::Enter => {
                proof {
                    self.lemma_view_board();
                    assert(self@.board[self.cursor_y as int].len() == self@.difficulty.cols);
                }
                if self.board[self.cursor_y][self.cursor_x].state != CellState::Revealed {
                    self.reveal_cell(self.cursor_x, self.cursor_y);
                }
            },
            Key::Char(' ') | Key::Char('f') | Key::Char('F') => {
                self.toggle_flag(self.cursor_x, self.cursor_y);
            },
            Key::Char('r') | Key::Char('R') => {
                self.reset();
                self.state = GameState::Playing;
            },
            Key::Char('q') | Key::Char('Q') | Key::Esc => {
                self.state = GameState::Menu;
            },
            _ => {},
        }
    }

    fn over_key(&mut self, key: Key)
        requires
            old(self).wf(),
        ensures
            final(self).wf(),
            over_result(old(self)@, final(self)@, key),
            !is_restart(key) && !is_back(key) ==> *final(self) == *old(self),
    {
        match key {
            Key::Char('r') | Key::Char('R') => {
                self.reset();
                self.state = GameState::Playing;
            },
            Key::Char('q') | Key::Char('Q') | Key::Esc => {
                self.state = GameState::Menu;
            },
            _ => {},
        }
    }
    /// The screen the game is on.
    pub fn state(&self) -> (s: GameState)
        ensures
            s == self@.state,
    {
        self.state
    }

    pub fn difficulty(&self) -> (d: Difficulty)
        ensures
            d == self@.difficulty,
    {
        self.difficulty
    }

    /// The column of the cursor.
    pub fn cursor_x(&self) -> (x: usize)
        ensures
            x == self@.cursor_x,
    {
        self.cursor_x
    }

    /// The row of the cursor.
    pub fn cursor_y(&self) -> (y: usize)
        ensures
            y == self@.cursor_y,
    {
        self.cursor_y
    }

    /// Mines minus flags set, as the header shows it.
    pub fn flags_remaining(&self) -> (f: i32)
        ensures
            f == self@.flags_remaining,
    {
        self.flags_remaining
    }

    /// The seconds shown by the clock.
    pub fn timer_seconds(&self) -> (t: u32)
        ensures
            t == self@.timer_seconds,
    {
        self.timer_seconds
    }

    /// No cell has been revealed yet.
    pub fn is_first_click(&self) -> (b: bool)
        ensures
            b == self@.first_click,
    {
        self.first_click
    }

    /// The cell in column `x`, row `y`.
    pub fn cell(&self, x: usize, y: usize) -> (c: Cell)
        requires
            self.wf(),
            x < self@.difficulty.cols,
            y < self@.difficulty.rows,
        ensures
            c == self@.board[y as int][x as int],
    {
        proof {
            self.lemma_view_board();
            assert(self@.board[y as int].len() == self@.difficulty.cols);
        }
        self.board[y][x]
    }
}

} // verus!
