pub mod button;
pub mod counters;
pub mod minefield;

use vstd::prelude::*;

use button::Button;
use counters::{Counter, SecsCounter};
use minefield::{
    count_flagged, count_mined, count_safe_unrevealed, lemma_size_bounds, FieldOptions, MineField,
};

verus! {

/// Everything the game mutates: the restart button, the three counters and
/// the board.
pub struct GameComponents {
    pub button: Button,
    pub cells_counter: Counter,
    pub flags_counter: Counter,
    pub secs_counter: SecsCounter,
    pub minefield: MineField,
}

impl GameComponents {
    /// The bookkeeping the engine maintains at every step: the flags counter
    /// always reads mines minus the number of flagged cells; once mines are
    /// placed the cells counter counts exactly the safe cells not yet
    /// revealed, the board's adjacency numbers are consistent and the board
    /// holds exactly `mines` mines; before placement the board is pristine
    /// (zero kinds, nothing revealed) and the cells counter holds the full
    /// safe-cell budget.
    pub open spec fn wf(self) -> bool {
        &&& self.minefield.wf()
        &&& self.flags_counter.spec_count() == self.minefield.spec_options().mines - count_flagged(
            self.minefield.grid(),
        )
        &&& (self.minefield.spec_mines_placed() ==> self.cells_counter.spec_count()
            == count_safe_unrevealed(self.minefield.grid()) && self.minefield.adj_consistent()
            && count_mined(self.minefield.grid()) == self.minefield.spec_options().mines)
        &&& (!self.minefield.spec_mines_placed() ==> self.minefield.kinds_clear()
            && self.minefield.none_revealed() && self.cells_counter.spec_count()
            == self.minefield.spec_options().size() - self.minefield.spec_options().mines)
    }

    /// A fresh set of components over a fresh board built from (clamped)
    /// options.
    pub fn new(options: FieldOptions) -> (r: Self)
        ensures
            r.wf(),
            !r.minefield.spec_mines_placed(),
            r.minefield.spec_options() == options.clamped(),
            r.minefield.all_hidden(),
            r.minefield.kinds_clear(),
            !r.button.is_pressed,
            !r.button.is_hovered,
            r.secs_counter.spec_idle(),
            r.cells_counter.spec_count() == r.minefield.spec_options().size()
                - r.minefield.spec_options().mines,
            r.flags_counter.spec_count() == r.minefield.spec_options().mines,
    {
        let minefield = MineField::new(options);
        let clamped = minefield.options();
        proof {
            lemma_size_bounds(clamped);
        }
        let cells_count = (clamped.cols * clamped.rows - clamped.mines) as i32;
        let flags_count = clamped.mines as i32;
        GameComponents {
            button: Button::default(),
            cells_counter: Counter::new(cells_count),
            flags_counter: Counter::new(flags_count),
            secs_counter: SecsCounter::default(),
            minefield,
        }
    }

    /// Puts everything back to the just-built state: button released,
    /// counters refilled from the options, clock stopped, board cleared.
    pub fn reset(&mut self)
        requires
            old(self).minefield.wf(),
        ensures
            final(self).wf(),
            final(self).minefield.spec_options() == old(self).minefield.spec_options(),
            !final(self).minefield.spec_mines_placed(),
            final(self).minefield.kinds_clear(),
            final(self).minefield.all_hidden(),
            !final(self).button.is_pressed,
            !final(self).button.is_hovered,
            final(self).secs_counter.spec_idle(),
            final(self).cells_counter.spec_count() == final(self).minefield.spec_options().size()
                - final(self).minefield.spec_options().mines,
            final(self).flags_counter.spec_count() == final(self).minefield.spec_options().mines,
    {
        let options = self.minefield.options();
        proof {
            lemma_size_bounds(options);
        }
        let cells_count = (options.cols * options.rows - options.mines) as i32;
        let flags_count = options.mines as i32;
        self.button.release();
        self.cells_counter.set_count(cells_count);
        self.flags_counter.set_count(flags_count);
        self.secs_counter.stop();
        self.minefield.reset();
    }
}

} // verus!
