use vstd::prelude::*;

use crate::game::components::minefield::{CellKind, CellState, MineCell};
use crate::game::GameState;

verus! {

/// How the restart button should look.
#[derive(Clone, Copy, PartialEq, Eq, Structural, Debug)]
pub enum ButtonAppearance {
    Happy,
    OpenEyed,
    Dead,
    Cool,
    Hovered,
}

/// How one cell should look.
#[derive(Clone, Copy, PartialEq, Eq, Structural, Debug)]
pub enum CellAppearance {
    Num(u8),
    Hidden,
    Hovered,
    Mined,
    Flagged,
    Wrong,
    Blown,
}

impl ButtonAppearance {
    /// The face the button wears for a game state: cool on a win, dead on a
    /// loss, happy otherwise.
    pub open spec fn from_gamestate_spec(st: GameState) -> ButtonAppearance {
        if st == GameState::Finished(true) {
            ButtonAppearance::Cool
        } else if st == GameState::Finished(false) {
            ButtonAppearance::Dead
        } else {
            ButtonAppearance::Happy
        }
    }

    pub fn from_gamestate(gamestate: &GameState) -> (r: Self)
        ensures
            r == Self::from_gamestate_spec(*gamestate),
    {
        match gamestate {
            GameState::Finished(true) => ButtonAppearance::Cool,
            GameState::Finished(false) => ButtonAppearance::Dead,
            _ => ButtonAppearance::Happy,
        }
    }
}

impl CellAppearance {
    /// During play: hidden and flagged cells wear their state; a revealed
    /// cell shows its number, or the exploded mine.
    pub open spec fn from_cell_default_spec(kind: CellKind, state: CellState) -> CellAppearance {
        if state == CellState::Hidden {
            CellAppearance::Hidden
        } else if state == CellState::Flagged {
            CellAppearance::Flagged
        } else if kind == CellKind::Mined {
            CellAppearance::Blown
        } else {
            CellAppearance::Num(kind.as_int() as u8)
        }
    }

    /// On game end: hidden mines are shown, hidden numbers are shown, a
    /// wrong flag is marked; correctly flagged mines and revealed cells need
    /// no redraw.
    pub open spec fn from_cell_final_spec(kind: CellKind, state: CellState) -> Option<
        CellAppearance,
    > {
        if state == CellState::Hidden {
            if kind == CellKind::Mined {
                Some(CellAppearance::Mined)
            } else {
                Some(CellAppearance::Num(kind.as_int() as u8))
            }
        } else if state == CellState::Flagged {
            if kind == CellKind::Mined {
                None
            } else {
                Some(CellAppearance::Wrong)
            }
        } else {
            None
        }
    }

    pub fn from_cell_default(cell: &MineCell) -> (r: Self)
        ensures
            r == Self::from_cell_default_spec(cell.spec_kind(), cell.spec_state()),
    {
        match cell.state() {
            CellState::Hidden => CellAppearance::Hidden,
            CellState::Flagged => CellAppearance::Flagged,
            CellState::Revealed => {
                let n = cell.kind().to_int();
                if n <= 8 {
                    CellAppearance::Num(n)
                } else {
                    CellAppearance::Blown
                }
            },
        }
    }

    pub fn from_cell_final(cell: &MineCell) -> (r: Option<Self>)
        ensures
            r == Self::from_cell_final_spec(cell.spec_kind(), cell.spec_state()),
    {
        match cell.state() {
            CellState::Hidden => {
                let n = cell.kind().to_int();
                if n <= 8 {
                    Some(CellAppearance::Num(n))
                } else {
                    Some(CellAppearance::Mined)
                }
            },
            CellState::Flagged => {
                if cell.kind().to_int() <= 8 {
                    Some(CellAppearance::Wrong)
                } else {
                    None
                }
            },
            CellState::Revealed => None,
        }
    }
}

} // verus!
