use vstd::prelude::*;

verus! {

/// Which screen the game is on, and how the round ended.
#[derive(Clone, Copy, Debug, PartialEq, Eq, Structural)]
pub enum GameState {
    Menu,
    Playing,
    Won,
    Lost,
}

/// The label shown in the header for each state.
pub open spec fn state_label_text(state: GameState) -> Seq<char> {
    match state {
        GameState::Playing => "[ Jugando ]"@,
        GameState::Won => "[ Ganaste! ]"@,
        GameState::Lost => "[ Perdiste ]"@,
        GameState::Menu => ""@,
    }
}

/// The label shown in the header: what the round is doing, or how it ended.
pub fn state_label(state: GameState) -> (s: &'static str)
    ensures
        s@ == state_label_text(state),
{
    match state {
        GameState::Playing => "[ Jugando ]",
        GameState::Won => "[ Ganaste! ]",
        GameState::Lost => "[ Perdiste ]",
        _ => "",
    }
}

/// The size of the board and the number of mines.
#[derive(Clone, Copy, Debug, PartialEq, Eq, Structural)]
pub struct Difficulty {
    pub rows: u32,
    pub cols: u32,
    pub mines: u32,
}

impl Difficulty {
    /// 9 x 9 with 10 mines.
    pub fn easy() -> (d: Difficulty)
        ensures
            d == (Difficulty { rows: 9, cols: 9, mines: 10 }),
    {
        Difficulty { rows: 9, cols: 9, mines: 10 }
    }

    /// 16 x 16 with 40 mines.
    pub fn medium() -> (d: Difficulty)
        ensures
            d == (Difficulty { rows: 16, cols: 16, mines: 40 }),
    {
        Difficulty { rows: 16, cols: 16, mines: 40 }
    }

    /// 16 rows of 30 columns with 99 mines.
    pub fn hard() -> (d: Difficulty)
        ensures
            d == (Difficulty { rows: 16, cols: 30, mines: 99 }),
    {
        Difficulty { rows: 16, cols: 30, mines: 99 }
    }
}

/// The settings that are saved between runs.
#[derive(Clone, Debug)]
pub struct GameConfig {
    pub difficulty: Difficulty,
}

impl Default for GameConfig {
    /// The easy board.
    fn default() -> (c: GameConfig)
        ensures
            c.difficulty == (Difficulty { rows: 9, cols: 9, mines: 10 }),
    {
        GameConfig { difficulty: Difficulty::easy() }
    }
}

} // verus!
