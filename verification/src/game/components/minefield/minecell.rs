use vstd::prelude::*;

verus! {

/// One grid position: its kind (a mined cell, or a count of mined
/// neighbors) and its visibility state.
#[derive(Clone, Copy)]
pub struct MineCell {
    pub kind: CellKind,
    pub state: CellState,
}

/// What a cell holds: `Num(n)` stands for an empty cell with `n` mined
/// neighbors; `Mined` is a mine.
#[derive(Clone, Copy, PartialEq, Eq, Structural)]
pub enum CellKind {
    Num0,
    Num1,
    Num2,
    Num3,
    Num4,
    Num5,
    Num6,
    Num7,
    Num8,
    Mined,
}

/// A cell's visibility: hidden, flagged by the player, or revealed.
#[derive(Clone, Copy, PartialEq, Eq, Structural)]
pub enum CellState {
    Hidden,
    Flagged,
    Revealed,
}

impl MineCell {
    /// The value every cell has before mines are placed.
    pub open spec fn default_spec() -> MineCell {
        MineCell { kind: CellKind::Num0, state: CellState::Hidden }
    }
}

impl Default for MineCell {
    fn default() -> (r: Self)
        ensures
            r == MineCell::default_spec(),
    {
        MineCell { kind: CellKind::Num0, state: CellState::Hidden }
    }
}

impl CellKind {
    /// A kind as an integer: the adjacency count for an empty cell, 9 for a mine.
    pub open spec fn as_int(self) -> int {
        match self {
            CellKind::Num0 => 0,
            CellKind::Num1 => 1,
            CellKind::Num2 => 2,
            CellKind::Num3 => 3,
            CellKind::Num4 => 4,
            CellKind::Num5 => 5,
            CellKind::Num6 => 6,
            CellKind::Num7 => 7,
            CellKind::Num8 => 8,
            CellKind::Mined => 9,
        }
    }

    pub fn to_int(self) -> (r: u8)
        ensures
            r as int == self.as_int(),
    {
        match self {
            CellKind::Num0 => 0,
            CellKind::Num1 => 1,
            CellKind::Num2 => 2,
            CellKind::Num3 => 3,
            CellKind::Num4 => 4,
            CellKind::Num5 => 5,
            CellKind::Num6 => 6,
            CellKind::Num7 => 7,
            CellKind::Num8 => 8,
            CellKind::Mined => 9,
        }
    }

    /// Bumps an adjacency count by one, capped at eight; a mine is unchanged.
    pub fn increment(&mut self)
        ensures
            *old(self) == CellKind::Mined ==> *final(self) == CellKind::Mined,
            *old(self) != CellKind::Mined ==> *final(self) != CellKind::Mined,
            *old(self) != CellKind::Mined && old(self).as_int() < 8 ==> final(self).as_int()
                == old(self).as_int() + 1,
            *old(self) == CellKind::Num8 ==> *final(self) == CellKind::Num8,
    {
        *self = match self {
            CellKind::Num0 => CellKind::Num1,
            CellKind::Num1 => CellKind::Num2,
            CellKind::Num2 => CellKind::Num3,
            CellKind::Num3 => CellKind::Num4,
            CellKind::Num4 => CellKind::Num5,
            CellKind::Num5 => CellKind::Num6,
            CellKind::Num6 => CellKind::Num7,
            CellKind::Num7 => CellKind::Num8,
            CellKind::Num8 => CellKind::Num8,
            CellKind::Mined => CellKind::Mined,
        };
    }
}

} // verus!
