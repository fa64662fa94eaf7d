use minesweeper::cell::{get_color_for_number, Cell, CellColor, CellLook, CellState, Glyph};
use minesweeper::config::{state_label, Difficulty, GameConfig, GameState};
use minesweeper::controls::{Action, Key};
use minesweeper::game::Game;

fn diff(rows: u32, cols: u32, mines: u32) -> Difficulty {
    Difficulty { rows, cols, mines }
}

fn mine_count(g: &Game) -> usize {
    let d = g.difficulty();
    let mut n = 0;
    for y in 0..d.rows as usize {
        for x in 0..d.cols as usize {
            if g.cell(x, y).is_mine {
                n += 1;
            }
        }
    }
    n
}

fn expected_count(g: &Game, x: usize, y: usize) -> u8 {
    let d = g.difficulty();
    let mut n = 0;
    for dy in -1i64..=1 {
        for dx in -1i64..=1 {
            if dx == 0 && dy == 0 {
                continue;
            }
            let nx = x as i64 + dx;
            let ny = y as i64 + dy;
            if nx >= 0 && ny >= 0 && nx < d.cols as i64 && ny < d.rows as i64 && g.cell(nx as usize, ny as usize).is_mine {
                n += 1;
            }
        }
    }
    n
}

#[test]
fn difficulty_presets() {
    assert_eq!(Difficulty::easy(), diff(9, 9, 10));
    assert_eq!(Difficulty::medium(), diff(16, 16, 40));
    assert_eq!(Difficulty::hard(), diff(16, 30, 99));
}

#[test]
fn default_config_is_easy() {
    let c = GameConfig::default();
    assert_eq!(c.difficulty, diff(9, 9, 10));
}

#[test]
fn new_cell_is_hidden_and_empty() {
    let c = Cell::new();
    assert_eq!(c.state, CellState::Hidden);
    assert!(!c.is_mine);
    assert_eq!(c.adjacent_mines, 0);
}

#[test]
fn colors_for_numbers() {
    assert_eq!(get_color_for_number(0), CellColor::Reset);
    assert_eq!(get_color_for_number(1), CellColor::Blue);
    assert_eq!(get_color_for_number(2), CellColor::Green);
    assert_eq!(get_color_for_number(3), CellColor::Red);
    assert_eq!(get_color_for_number(4), CellColor::Magenta);
    assert_eq!(get_color_for_number(5), CellColor::Yellow);
    assert_eq!(get_color_for_number(6), CellColor::Cyan);
    assert_eq!(get_color_for_number(7), CellColor::White);
    assert_eq!(get_color_for_number(8), CellColor::Gray);
    assert_eq!(get_color_for_number(9), CellColor::Reset);
}

#[test]
fn cell_looks() {
    let mut c = Cell::new();
    assert_eq!(c.look(true), CellLook { glyph: Glyph::Cursor, fg: CellColor::Black, bg: CellColor::Yellow });
    assert_eq!(c.look(false), CellLook { glyph: Glyph::Covered, fg: CellColor::DarkGray, bg: CellColor::Reset });
    c.state = CellState::Flagged;
    assert_eq!(c.look(true), CellLook { glyph: Glyph::Flag, fg: CellColor::Red, bg: CellColor::Reset });
    c.state = CellState::Revealed;
    assert_eq!(c.look(false), CellLook { glyph: Glyph::Blank, fg: CellColor::Reset, bg: CellColor::Reset });
    c.adjacent_mines = 3;
    assert_eq!(c.look(false), CellLook { glyph: Glyph::Number(3), fg: CellColor::Red, bg: CellColor::Reset });
    c.is_mine = true;
    assert_eq!(c.look(true), CellLook { glyph: Glyph::Mine, fg: CellColor::Red, bg: CellColor::DarkGray });
}

#[test]
fn new_game_is_blank() {
    let g = Game::new(Difficulty::hard());
    assert_eq!(g.state(), GameState::Menu);
    assert_eq!(g.difficulty(), diff(16, 30, 99));
    assert_eq!(g.cursor_x(), 15);
    assert_eq!(g.cursor_y(), 8);
    assert_eq!(g.flags_remaining(), 99);
    assert_eq!(g.timer_seconds(), 0);
    assert!(g.is_first_click());
    for y in 0..16 {
        for x in 0..30 {
            assert_eq!(g.cell(x, y), Cell::new());
        }
    }
    assert_eq!(g.count_adjacent_mines(3, 3), 0);
}

#[test]
fn reset_gives_a_new_game() {
    let mut g = Game::new(Difficulty::easy());
    g.reveal_cell(4, 4);
    g.toggle_flag(0, 0);
    g.reset();
    assert_eq!(g.state(), GameState::Menu);
    assert!(g.is_first_click());
    assert_eq!(g.flags_remaining(), 10);
    assert_eq!(mine_count(&g), 0);
    assert_eq!(g.cell(4, 4), Cell::new());
}

#[test]
fn toggle_flag_sets_and_clears() {
    let mut g = Game::new(Difficulty::easy());
    g.toggle_flag(2, 3);
    assert_eq!(g.cell(2, 3).state, CellState::Flagged);
    assert_eq!(g.flags_remaining(), 9);
    g.toggle_flag(2, 3);
    assert_eq!(g.cell(2, 3).state, CellState::Hidden);
    assert_eq!(g.flags_remaining(), 10);
}

#[test]
fn toggle_flag_outside_board_does_nothing() {
    let mut g = Game::new(Difficulty::easy());
    g.toggle_flag(9, 0);
    g.toggle_flag(0, 9);
    assert_eq!(g.flags_remaining(), 10);
}

#[test]
fn toggle_flag_on_revealed_cell_does_nothing() {
    let mut g = Game::new(diff(3, 3, 5));
    g.reveal_cell(1, 1);
    assert_eq!(g.cell(0, 0).state, CellState::Revealed);
    g.toggle_flag(0, 0);
    assert_eq!(g.cell(0, 0).state, CellState::Revealed);
    assert_eq!(g.flags_remaining(), 0);
}

#[test]
fn flags_remaining_can_go_negative() {
    let mut g = Game::new(diff(2, 2, 1));
    g.toggle_flag(0, 0);
    g.toggle_flag(1, 0);
    assert_eq!(g.flags_remaining(), -1);
}

#[test]
fn reveal_outside_board_does_nothing() {
    let mut g = Game::new(Difficulty::easy());
    g.reveal_cell(9, 9);
    assert!(g.is_first_click());
    assert_eq!(mine_count(&g), 0);
}

#[test]
fn reveal_flagged_cell_does_nothing() {
    let mut g = Game::new(Difficulty::easy());
    g.toggle_flag(4, 4);
    g.reveal_cell(4, 4);
    assert!(g.is_first_click());
    assert_eq!(g.cell(4, 4).state, CellState::Flagged);
}

#[test]
fn small_board_without_room_for_mines_is_won_at_once() {
    let mut g = Game::new(diff(3, 3, 5));
    g.reveal_cell(1, 1);
    assert_eq!(mine_count(&g), 0);
    for y in 0..3 {
        for x in 0..3 {
            assert_eq!(g.cell(x, y).state, CellState::Revealed);
            assert_eq!(g.cell(x, y).adjacent_mines, 0);
        }
    }
    assert_eq!(g.state(), GameState::Won);
    assert_eq!(g.flags_remaining(), 0);
}

#[test]
fn row_board_reveal_spreads_and_wins() {
    // One row of five: the safe square of column 0 covers columns 0 and 1, so the three
    // other cells all get a mine.
    let mut g = Game::new(diff(1, 5, 3));
    g.reveal_cell(0, 0);
    assert!(!g.cell(0, 0).is_mine && !g.cell(1, 0).is_mine);
    assert!(g.cell(2, 0).is_mine && g.cell(3, 0).is_mine && g.cell(4, 0).is_mine);
    assert_eq!(g.cell(0, 0).adjacent_mines, 0);
    assert_eq!(g.cell(1, 0).adjacent_mines, 1);
    assert_eq!(g.cell(0, 0).state, CellState::Revealed);
    assert_eq!(g.cell(1, 0).state, CellState::Revealed);
    assert_eq!(g.state(), GameState::Won);
    for x in 2..5 {
        assert_eq!(g.cell(x, 0).state, CellState::Flagged);
    }
    assert_eq!(g.flags_remaining(), 0);
}

#[test]
fn reveal_stops_at_numbers() {
    // Two rows of six, first reveal at the left end: columns 0 and 1 are safe; the
    // mines fill the eight other cells.
    let mut g = Game::new(diff(2, 6, 8));
    g.reveal_cell(0, 0);
    for y in 0..2 {
        assert_eq!(g.cell(0, y).state, CellState::Revealed);
        assert_eq!(g.cell(1, y).state, CellState::Revealed);
        assert_eq!(g.cell(0, y).adjacent_mines, 0);
        assert_eq!(g.cell(1, y).adjacent_mines, 2);
    }
    assert_eq!(g.state(), GameState::Won);
}

#[test]
fn first_reveal_is_safe_and_lays_all_mines() {
    for _ in 0..20 {
        let mut g = Game::new(Difficulty::easy());
        g.reveal_cell(3, 5);
        assert!(!g.is_first_click());
        assert_ne!(g.state(), GameState::Lost);
        assert_eq!(mine_count(&g), 10);
        for y in 4..=6 {
            for x in 2..=4 {
                assert!(!g.cell(x, y).is_mine);
            }
        }
        assert_eq!(g.cell(3, 5).state, CellState::Revealed);
        for y in 0..9 {
            for x in 0..9 {
                let c = g.cell(x, y);
                if !c.is_mine {
                    assert_eq!(c.adjacent_mines, expected_count(&g, x, y));
                    assert_eq!(g.count_adjacent_mines(x, y), c.adjacent_mines);
                }
                if c.is_mine {
                    assert_ne!(c.state, CellState::Revealed);
                }
            }
        }
    }
}

#[test]
fn revealed_zero_cells_uncover_their_neighbours() {
    for _ in 0..20 {
        let mut g = Game::new(Difficulty::medium());
        g.reveal_cell(8, 8);
        for y in 0..16usize {
            for x in 0..16usize {
                let c = g.cell(x, y);
                if c.state == CellState::Revealed && !c.is_mine && c.adjacent_mines == 0 {
                    for ny in y.saturating_sub(1)..=(y + 1).min(15) {
                        for nx in x.saturating_sub(1)..=(x + 1).min(15) {
                            assert_eq!(g.cell(nx, ny).state, CellState::Revealed);
                        }
                    }
                }
            }
        }
    }
}

#[test]
fn mines_are_placed_in_random_order() {
    // Without shuffling, the mines would always be the first ten cells outside the safe
    // square in row order.
    let mut layouts = Vec::new();
    for _ in 0..5 {
        let mut g = Game::new(Difficulty::easy());
        g.place_mines(8, 8);
        let mut layout = Vec::new();
        for y in 0..9 {
            for x in 0..9 {
                layout.push(g.cell(x, y).is_mine);
            }
        }
        assert_eq!(layout.iter().filter(|m| **m).count(), 10);
        layouts.push(layout);
    }
    let first_ten: Vec<bool> = (0..81).map(|i| i < 10).collect();
    assert!(layouts.iter().any(|l| *l != first_ten));
}

#[test]
fn place_mines_keeps_the_safe_square_clear() {
    let mut g = Game::new(diff(4, 4, 20));
    g.place_mines(0, 0);
    assert_eq!(mine_count(&g), 12);
    assert!(!g.cell(0, 0).is_mine && !g.cell(1, 0).is_mine);
    assert!(!g.cell(0, 1).is_mine && !g.cell(1, 1).is_mine);
    assert_eq!(g.cell(0, 0).adjacent_mines, 0);
    assert_eq!(g.cell(1, 1).adjacent_mines, 5);
    assert_eq!(g.cell(0, 0).state, CellState::Hidden);
}

#[test]
fn revealing_a_mine_loses_and_shows_mines() {
    let mut checked = false;
    for _ in 0..200 {
        let mut g = Game::new(diff(2, 8, 10));
        g.reveal_cell(0, 0);
        if g.state() != GameState::Menu {
            continue;
        }
        let mut mines = Vec::new();
        for y in 0..2 {
            for x in 0..8 {
                if g.cell(x, y).is_mine {
                    mines.push((x, y));
                }
            }
        }
        assert_eq!(mines.len(), 10);
        let before: Vec<Cell> = (0..16).map(|i| g.cell(i % 8, i / 8)).collect();
        let (fx, fy) = mines[0];
        g.toggle_flag(fx, fy);
        assert_eq!(g.flags_remaining(), 9);
        let (mx, my) = mines[1];
        g.reveal_cell(mx, my);
        assert_eq!(g.state(), GameState::Lost);
        assert_eq!(g.flags_remaining(), 9);
        assert_eq!(g.cell(fx, fy).state, CellState::Flagged);
        for i in 0..16 {
            let (x, y) = (i % 8, i / 8);
            let c = g.cell(x, y);
            if c.is_mine && (x, y) != (fx, fy) {
                assert_eq!(c.state, CellState::Revealed);
            } else if !c.is_mine {
                assert_eq!(c.state, before[i].state);
            }
        }
        checked = true;
        break;
    }
    assert!(checked);
}

#[test]
fn revealing_twice_changes_nothing() {
    let mut g = Game::new(Difficulty::easy());
    g.reveal_cell(4, 4);
    let snapshot: Vec<Cell> = (0..81).map(|i| g.cell(i % 9, i / 9)).collect();
    let state = g.state();
    g.reveal_cell(4, 4);
    let again: Vec<Cell> = (0..81).map(|i| g.cell(i % 9, i / 9)).collect();
    assert_eq!(snapshot, again);
    assert_eq!(state, g.state());
}

#[test]
fn reveal_all_mines_shows_unflagged_mines() {
    let mut g = Game::new(diff(1, 5, 3));
    g.place_mines(0, 0);
    g.toggle_flag(2, 0);
    g.reveal_all_mines();
    assert_eq!(g.cell(2, 0).state, CellState::Flagged);
    assert_eq!(g.cell(3, 0).state, CellState::Revealed);
    assert_eq!(g.cell(4, 0).state, CellState::Revealed);
    assert_eq!(g.cell(0, 0).state, CellState::Hidden);
}

#[test]
fn check_win_needs_every_safe_cell_revealed() {
    let mut g = Game::new(diff(1, 5, 3));
    g.place_mines(0, 0);
    g.check_win();
    assert_eq!(g.state(), GameState::Menu);
    assert_eq!(g.flags_remaining(), 3);
}

#[test]
fn timer_stays_until_the_clock_starts() {
    let mut g = Game::new(Difficulty::easy());
    g.update_timer();
    assert_eq!(g.timer_seconds(), 0);
    g.reveal_cell(0, 0);
    g.update_timer();
    assert!(g.timer_seconds() < 5);
}

#[test]
fn menu_keys_start_rounds_and_quit() {
    let mut g = Game::new(Difficulty::easy());
    assert_eq!(g.handle_key(Key::Char('x')), Action::Continue);
    assert_eq!(g.state(), GameState::Menu);
    assert_eq!(g.handle_key(Key::Char('3')), Action::Continue);
    assert_eq!(g.state(), GameState::Playing);
    assert_eq!(g.difficulty(), diff(16, 30, 99));
    assert_eq!(g.cursor_x(), 15);
    assert_eq!(g.handle_key(Key::Char('q')), Action::Continue);
    assert_eq!(g.state(), GameState::Menu);
    assert_eq!(g.handle_key(Key::Char('2')), Action::Continue);
    assert_eq!(g.difficulty(), diff(16, 16, 40));
    assert_eq!(g.handle_key(Key::Esc), Action::Continue);
    assert_eq!(g.state(), GameState::Menu);
    assert_eq!(g.handle_key(Key::Char('4')), Action::Quit);
    assert_eq!(g.handle_key(Key::Esc), Action::Quit);
    assert_eq!(g.handle_key(Key::Char('1')), Action::Continue);
    assert_eq!(g.difficulty(), diff(9, 9, 10));
}

#[test]
fn playing_keys_move_the_cursor_within_the_board() {
    let mut g = Game::new(Difficulty::easy());
    g.handle_key(Key::Char('1'));
    assert_eq!((g.cursor_x(), g.cursor_y()), (4, 4));
    for _ in 0..10 {
        g.handle_key(Key::Up);
        g.handle_key(Key::Char('a'));
    }
    assert_eq!((g.cursor_x(), g.cursor_y()), (0, 0));
    for _ in 0..10 {
        g.handle_key(Key::Char('s'));
        g.handle_key(Key::Right);
    }
    assert_eq!((g.cursor_x(), g.cursor_y()), (8, 8));
    g.handle_key(Key::Char('w'));
    g.handle_key(Key::Left);
    assert_eq!((g.cursor_x(), g.cursor_y()), (7, 7));
    g.handle_key(Key::Other);
    assert_eq!((g.cursor_x(), g.cursor_y()), (7, 7));
    assert_eq!(g.state(), GameState::Playing);
}

#[test]
fn playing_keys_flag_reveal_and_restart() {
    let mut g = Game::new(Difficulty::easy());
    g.handle_key(Key::Char('1'));
    g.handle_key(Key::Char('f'));
    assert_eq!(g.cell(4, 4).state, CellState::Flagged);
    assert_eq!(g.flags_remaining(), 9);
    g.handle_key(Key::Char(' '));
    assert_eq!(g.cell(4, 4).state, CellState::Hidden);
    g.handle_key(Key::Char('F'));
    g.handle_key(Key::Enter);
    assert!(g.is_first_click());
    g.handle_key(Key::Char('f'));
    g.handle_key(Key::Enter);
    assert!(!g.is_first_click());
    assert_eq!(g.cell(4, 4).state, CellState::Revealed);
    assert_eq!(mine_count(&g), 10);
    g.handle_key(Key::Char('R'));
    assert_eq!(g.state(), GameState::Playing);
    assert!(g.is_first_click());
    assert_eq!(mine_count(&g), 0);
}

#[test]
fn keys_after_a_round() {
    let mut g = Game::new(diff(3, 3, 5));
    g.reveal_cell(1, 1);
    assert_eq!(g.state(), GameState::Won);
    g.handle_key(Key::Char('x'));
    assert_eq!(g.state(), GameState::Won);
    g.handle_key(Key::Char('r'));
    assert_eq!(g.state(), GameState::Playing);
    assert!(g.is_first_click());
    g.reveal_cell(1, 1);
    assert_eq!(g.state(), GameState::Won);
    g.handle_key(Key::Char('Q'));
    assert_eq!(g.state(), GameState::Menu);
}

fn flags_on_board(g: &Game) -> i32 {
    let d = g.difficulty();
    let mut n = 0;
    for y in 0..d.rows as usize {
        for x in 0..d.cols as usize {
            if g.cell(x, y).state == CellState::Flagged {
                n += 1;
            }
        }
    }
    n
}

#[test]
fn flag_counter_plus_flags_stays_constant() {
    for _ in 0..20 {
        let mut g = Game::new(Difficulty::medium());
        assert_eq!(g.flags_remaining() + flags_on_board(&g), 40);
        g.toggle_flag(0, 0);
        g.toggle_flag(15, 15);
        g.toggle_flag(3, 9);
        assert_eq!(g.flags_remaining() + flags_on_board(&g), 40);
        g.reveal_cell(8, 8);
        if g.state() != GameState::Won {
            assert_eq!(g.flags_remaining() + flags_on_board(&g), 40);
        }
        g.toggle_flag(15, 15);
        assert_eq!(g.flags_remaining() + flags_on_board(&g), 40);
    }
}

#[test]
fn flag_twice_restores_the_game() {
    let mut g = Game::new(Difficulty::easy());
    g.reveal_cell(4, 4);
    let before: Vec<Cell> = (0..81).map(|i| g.cell(i % 9, i / 9)).collect();
    let flags = g.flags_remaining();
    for i in 0..81 {
        g.toggle_flag(i % 9, i / 9);
        g.toggle_flag(i % 9, i / 9);
    }
    let after: Vec<Cell> = (0..81).map(|i| g.cell(i % 9, i / 9)).collect();
    assert_eq!(before, after);
    assert_eq!(flags, g.flags_remaining());
}

#[test]
fn clock_reading_is_shown_once_started() {
    let mut g = Game::new(Difficulty::easy());
    g.show_elapsed(42);
    assert_eq!(g.timer_seconds(), 0);
    g.reveal_cell(4, 4);
    g.show_elapsed(42);
    assert_eq!(g.timer_seconds(), 42);
    g.show_elapsed((1u64 << 32) + 7);
    assert_eq!(g.timer_seconds(), 7);
}

#[test]
fn header_labels() {
    assert_eq!(state_label(GameState::Playing), "[ Jugando ]");
    assert_eq!(state_label(GameState::Won), "[ Ganaste! ]");
    assert_eq!(state_label(GameState::Lost), "[ Perdiste ]");
    assert_eq!(state_label(GameState::Menu), "");
}

#[test]
fn win_check_and_mine_display_are_idempotent() {
    let mut g = Game::new(diff(1, 5, 3));
    g.reveal_cell(0, 0);
    assert_eq!(g.state(), GameState::Won);
    let won: Vec<Cell> = (0..5).map(|x| g.cell(x, 0)).collect();
    g.check_win();
    let again: Vec<Cell> = (0..5).map(|x| g.cell(x, 0)).collect();
    assert_eq!(won, again);
    assert_eq!(g.flags_remaining(), 0);

    let mut h = Game::new(diff(1, 5, 3));
    h.place_mines(0, 0);
    h.reveal_all_mines();
    let shown: Vec<Cell> = (0..5).map(|x| h.cell(x, 0)).collect();
    h.reveal_all_mines();
    let shown_again: Vec<Cell> = (0..5).map(|x| h.cell(x, 0)).collect();
    assert_eq!(shown, shown_again);
    assert_eq!(h.state(), GameState::Menu);
}
