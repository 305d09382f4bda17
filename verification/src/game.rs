pub mod components;
pub mod rendering;

use vstd::prelude::*;

use components::minefield::minecell::MineCell as CellInternal;
use components::minefield::{
    count_hidden, count_safe_unrevealed, gidx, grid_adj_count, grid_in_bounds, is_neighbor,
    CellKind, CellState, FieldOptions, MineField,
};
use components::GameComponents;

verus! {

broadcast use vstd::seq_lib::lemma_seq_contains_after_push;

/// The top-level game state: playing (idle until the first click has placed
/// the mines), finished (won or lost), or quit.
#[derive(Clone, Copy, PartialEq, Eq, Structural)]
pub enum GameState {
    Playing(bool),  // idle: no mines placed yet
    Finished(bool),  // won
    Quitted,
}

pub open spec fn is_playing(st: GameState) -> bool {
    st == GameState::Playing(true) || st == GameState::Playing(false)
}

pub open spec fn is_finished(st: GameState) -> bool {
    st == GameState::Finished(true) || st == GameState::Finished(false)
}

/// The engine: the current game state plus everything it owns.
pub struct GameHandler {
    state: GameState,
    components: GameComponents,
}

impl GameHandler {
    pub closed spec fn spec_state(self) -> GameState {
        self.state
    }

    pub closed spec fn spec_components(self) -> GameComponents {
        self.components
    }

    pub open spec fn board(self) -> MineField {
        self.spec_components().minefield
    }

    pub open spec fn opts(self) -> FieldOptions {
        self.board().spec_options()
    }

    pub open spec fn grid(self) -> Seq<CellInternal> {
        self.board().grid()
    }

    pub open spec fn cells_left(self) -> int {
        self.spec_components().cells_counter.spec_count()
    }

    pub open spec fn flags_left(self) -> int {
        self.spec_components().flags_counter.spec_count()
    }

    /// Well-formed engine: the components' bookkeeping holds and the state
    /// machine agrees with the board about whether mines exist.
    pub open spec fn wf(self) -> bool {
        &&& self.spec_components().wf()
        &&& (self.spec_state() == GameState::Playing(true) ==> !self.board().spec_mines_placed())
        &&& (self.spec_state() == GameState::Playing(false) ==> self.board().spec_mines_placed())
        &&& (is_finished(self.spec_state()) ==> self.board().spec_mines_placed())
    }

    /// The win check has been applied: while actively playing there is
    /// always at least one safe cell left to reveal.
    pub open spec fn settled(self) -> bool {
        self.spec_state() == GameState::Playing(false) ==> self.cells_left() > 0
    }

    /// A fresh engine over a fresh (clamped) board, idle until the first
    /// click.
    pub fn init(options: FieldOptions) -> (r: Self)
        ensures
            r.wf(),
            r.settled(),
            r.spec_state() == GameState::Playing(true),
            r.board().spec_options() == options.clamped(),
            r.board().all_hidden(),
            r.board().kinds_clear(),
            r.cells_left() == r.opts().size() - r.opts().mines,
            r.flags_left() == r.opts().mines,
    {
        GameHandler { state: GameState::Playing(true), components: GameComponents::new(options) }
    }

    pub fn state(&self) -> (r: GameState)
        ensures
            r == self.spec_state(),
    {
        self.state
    }

    pub fn components(&self) -> (r: &GameComponents)
        ensures
            *r == self.spec_components(),
    {
        &self.components
    }

    pub fn is_active(&self) -> (r: bool)
        ensures
            r == (self.spec_state() != GameState::Quitted),
    {
        self.state != GameState::Quitted
    }

    /// Quit is terminal: nothing else changes and no later event acts.
    pub fn quit(&mut self)
        ensures
            final(self).spec_state() == GameState::Quitted,
            final(self).spec_components() == old(self).spec_components(),
    {
        self.state = GameState::Quitted;
    }

    /// A primary press: over the restart control it presses the button;
    /// anywhere else nothing in the engine changes (cell hover is a
    /// rendering concern).
    pub fn left_click(&mut self, over_button: bool)
        requires
            old(self).wf(),
        ensures
            final(self).wf(),
            final(self).spec_state() == old(self).spec_state(),
            final(self).spec_components().minefield == old(self).spec_components().minefield,
            final(self).cells_left() == old(self).cells_left(),
            final(self).flags_left() == old(self).flags_left(),
            final(self).spec_components().secs_counter == old(self).spec_components().secs_counter,
            over_button ==> final(self).spec_components().button.is_pressed
                && final(self).spec_components().button.is_hovered,
            !over_button ==> final(self).spec_components().button
                == old(self).spec_components().button,
    {
        if over_button {
            self.components.button.click();
        }
    }

    /// A pointer move while the restart button is pressed tracks whether the
    /// pointer is still over the control; otherwise the engine state is
    /// untouched.
    pub fn mouse_move(&mut self, over_button: bool)
        requires
            old(self).wf(),
        ensures
            final(self).wf(),
            final(self).spec_state() == old(self).spec_state(),
            final(self).spec_components().minefield == old(self).spec_components().minefield,
            final(self).cells_left() == old(self).cells_left(),
            final(self).flags_left() == old(self).flags_left(),
            final(self).spec_components().secs_counter == old(self).spec_components().secs_counter,
            final(self).spec_components().button.is_pressed
                == old(self).spec_components().button.is_pressed,
            old(self).spec_components().button.is_pressed
                ==> final(self).spec_components().button.is_hovered == over_button,
            !old(self).spec_components().button.is_pressed
                ==> final(self).spec_components().button == old(self).spec_components().button,
    {
        if self.components.button.is_pressed {
            self.components.button.is_hovered = over_button;
        }
    }
}

/// The counter invariant, as one law: on a mined board the remaining-cells
/// counter always reads the safe-cell budget minus the number of revealed
/// safe cells, so after k successful safe reveals it reads
/// cols * rows - mines - k.
pub proof fn lemma_counter_counts_reveals(h: GameHandler)
    requires
        h.wf(),
        h.board().spec_mines_placed(),
    ensures
        h.cells_left() == h.opts().size() - h.opts().mines
            - components::minefield::count_revealed_safe(h.grid()),
{
    components::minefield::lemma_safe_cell_partition(h.grid());
}

/// A chain of at most `n` steps leads from (x, y) back to the seed, every
/// step standing on a revealed zero-adjacency cell: (x, y) is the seed
/// itself, or one of its neighbors is a revealed zero-adjacency cell that is
/// closer to the seed.
pub open spec fn zero_reach(
    g: Seq<CellInternal>,
    o: FieldOptions,
    sx: int,
    sy: int,
    x: int,
    y: int,
    n: nat,
) -> bool
    decreases n,
{
    if x == sx && y == sy {
        true
    } else if n == 0 {
        false
    } else {
        exists|nx: int, ny: int|
            grid_in_bounds(o, nx, ny) && #[trigger] is_neighbor(x, y, nx, ny) && g[
                gidx(o, nx, ny)
            ].state == CellState::Revealed && grid_adj_count(g, o, nx, ny) == 0 && zero_reach(
                g,
                o,
                sx,
                sy,
                nx,
                ny,
                (n - 1) as nat,
            )
    }
}

/// (x, y) lies in the seed's flood region: it is the seed, a cell of the
/// connected revealed zero-adjacency region containing the seed, or a cell
/// bordering that region.
pub open spec fn reaches_seed(
    g: Seq<CellInternal>,
    o: FieldOptions,
    sx: int,
    sy: int,
    x: int,
    y: int,
) -> bool {
    exists|n: nat| #[trigger] zero_reach(g, o, sx, sy, x, y, n)
}

/// Nothing outside the flood-fill region is opened: every cell the call
/// revealed, other than the seed itself, is connected to the seed through
/// its revealed zero-adjacency region.
pub open spec fn newly_revealed_sound(
    pre: GameHandler,
    post: GameHandler,
    sx: int,
    sy: int,
) -> bool {
    forall|x: int, y: int|
        post.board().in_bounds(x, y) && (#[trigger] post.board().cell_at(x, y)).state
            == CellState::Revealed && pre.board().cell_at(x, y).state != CellState::Revealed && !(x
            == sx && y == sy) ==> reaches_seed(post.grid(), post.opts(), sx, sy, x, y)
}

/// Reachability chains survive further reveals: kinds are fixed and states
/// only ever move from hidden to revealed, so a chain through the earlier
/// grid is still a chain through the later one.
proof fn lemma_zero_reach_monotone(
    g1: Seq<CellInternal>,
    g2: Seq<CellInternal>,
    o: FieldOptions,
    sx: int,
    sy: int,
    x: int,
    y: int,
    n: nat,
)
    requires
        o.wf(),
        g1.len() == o.size(),
        g2.len() == g1.len(),
        forall|i: int| 0 <= i < g1.len() ==> (#[trigger] g2[i]).kind == g1[i].kind,
        forall|i: int|
            0 <= i < g1.len() && (#[trigger] g1[i]).state == CellState::Revealed ==> g2[i].state
                == CellState::Revealed,
        zero_reach(g1, o, sx, sy, x, y, n),
    ensures
        zero_reach(g2, o, sx, sy, x, y, n),
    decreases n,
{
    if !(x == sx && y == sy) {
        let (nx, ny) = choose|nx: int, ny: int|
            grid_in_bounds(o, nx, ny) && #[trigger] is_neighbor(x, y, nx, ny) && g1[
                gidx(o, nx, ny)
            ].state == CellState::Revealed && grid_adj_count(g1, o, nx, ny) == 0 && zero_reach(
                g1,
                o,
                sx,
                sy,
                nx,
                ny,
                (n - 1) as nat,
            );
        components::minefield::lemma_gidx_bounds(o, nx, ny);
        components::minefield::lemma_adj_count_same_mines(g1, g2, o, nx, ny);
        lemma_zero_reach_monotone(g1, g2, o, sx, sy, nx, ny, (n - 1) as nat);
        assert(grid_in_bounds(o, nx, ny) && is_neighbor(x, y, nx, ny) && g2[
            gidx(o, nx, ny)
        ].state == CellState::Revealed && grid_adj_count(g2, o, nx, ny) == 0 && zero_reach(
            g2,
            o,
            sx,
            sy,
            nx,
            ny,
            (n - 1) as nat,
        ));
    }
}

/// When at most the seed cell's state changed, nothing other than the seed
/// was newly revealed.
proof fn lemma_only_seed_changed(post: GameHandler, pre: GameHandler, sx: int, sy: int)
    requires
        post.opts() == pre.opts(),
        pre.opts().wf(),
        post.grid().len() == pre.grid().len(),
        pre.grid().len() == pre.opts().size(),
        grid_in_bounds(pre.opts(), sx, sy),
        forall|i: int|
            0 <= i < post.grid().len() && i != gidx(pre.opts(), sx, sy) ==> (
            #[trigger] post.grid()[i]).state == pre.grid()[i].state,
    ensures
        newly_revealed_sound(pre, post, sx, sy),
{
    let o = pre.opts();
    assert forall|ax: int, ay: int|
        post.board().in_bounds(ax, ay) && (#[trigger] post.board().cell_at(ax, ay)).state
            == CellState::Revealed && pre.board().cell_at(ax, ay).state != CellState::Revealed
            && !(ax == sx && ay == sy) implies reaches_seed(
            post.grid(),
            post.opts(),
            sx,
            sy,
            ax,
            ay,
        ) by {
        components::minefield::lemma_gidx_bounds(o, ax, ay);
        components::minefield::lemma_gidx_bounds(o, sx, sy);
        if gidx(o, ax, ay) == gidx(o, sx, sy) {
            components::minefield::lemma_gidx_injective(o, ax, ay, sx, sy);
            assert(false);
        } else {
            assert(false);
        }
    }
}

/// No neighbor of (x, y) is left hidden.
pub open spec fn no_hidden_neighbor(h: GameHandler, x: int, y: int) -> bool {
    forall|nx: int, ny: int|
        h.board().in_bounds(nx, ny) && #[trigger] is_neighbor(x, y, nx, ny) ==> h.board().cell_at(
            nx,
            ny,
        ).state != CellState::Hidden
}

/// Flood-fill closure: every zero-adjacency cell the call revealed is fully
/// expanded, with none of its neighbors left hidden.
pub open spec fn newly_revealed_closed(pre: GameHandler, post: GameHandler) -> bool {
    forall|x: int, y: int|
        post.board().in_bounds(x, y) && pre.board().cell_at(x, y).state == CellState::Hidden && (
        #[trigger] post.board().cell_at(x, y)).state == CellState::Revealed
            && post.board().adj_count(x, y) == 0 ==> no_hidden_neighbor(post, x, y)
}

/// Everything one open call guarantees about the engine before (`pre`) and
/// after (`post`) revealing the cell at (sx, sy): cell kinds, flags, the
/// button and the clock never change; visibility only ever goes from hidden
/// to revealed; opening a mine loses the game on the spot and reveals
/// nothing else; opening a safe cell keeps the game state, never reveals a
/// mine, and leaves the remaining-cells counter equal to the count of safe
/// unrevealed cells.
pub open spec fn open_cell_rel(pre: GameHandler, post: GameHandler, sx: int, sy: int) -> bool {
    &&& post.wf()
    &&& post.opts() == pre.opts()
    &&& post.board().spec_mines_placed() == pre.board().spec_mines_placed()
    &&& post.grid().len() == pre.grid().len()
    &&& forall|i: int|
        0 <= i < post.grid().len() ==> (#[trigger] post.grid()[i]).kind == pre.grid()[i].kind
    &&& forall|i: int|
        0 <= i < post.grid().len() && (#[trigger] post.grid()[i]).state != pre.grid()[i].state
            ==> pre.grid()[i].state == CellState::Hidden && post.grid()[i].state
            == CellState::Revealed
    &&& post.board().cell_at(sx, sy).state == CellState::Revealed
    &&& (pre.board().mined_at(sx, sy) ==> post.spec_state() == GameState::Finished(false)
        && post.cells_left() == pre.cells_left() && (forall|i: int|
        0 <= i < post.grid().len() && i != gidx(pre.opts(), sx, sy) ==> (
        #[trigger] post.grid()[i]).state == pre.grid()[i].state))
    &&& (!pre.board().mined_at(sx, sy) ==> post.spec_state() == pre.spec_state() && (forall|i: int|
        0 <= i < post.grid().len() && (#[trigger] post.grid()[i]).kind == CellKind::Mined
            ==> post.grid()[i].state == pre.grid()[i].state))
    &&& post.flags_left() == pre.flags_left()
    &&& post.spec_components().button == pre.spec_components().button
    &&& post.spec_components().secs_counter == pre.spec_components().secs_counter
    &&& newly_revealed_sound(pre, post, sx, sy)
    &&& (!pre.board().mined_at(sx, sy) ==> newly_revealed_closed(pre, post))
}

impl GameHandler {
    /// Opens one hidden cell. A mine ends the game as a loss with only that
    /// cell revealed; a safe cell is revealed and the remaining-cells
    /// counter drops, and a zero-adjacency cell floods its hidden zero
    /// region by an explicit worklist rather than recursion, so each cell is
    /// revealed at most once and no mine is ever flooded.
    #[verifier::rlimit(100)]
    pub fn open_cell(&mut self, x: usize, y: usize)
        requires
            old(self).wf(),
            old(self).spec_state() == GameState::Playing(false) || old(self).spec_state()
                == GameState::Finished(false),
            old(self).board().in_bounds(x as int, y as int),
            old(self).board().cell_at(x as int, y as int).state == CellState::Hidden,
        ensures
            open_cell_rel(*old(self), *final(self), x as int, y as int),
    {
        let ghost pre = *self;
        let mut cell = self.components.minefield.get_cell_unchecked(x, y);
        if cell.is_mined() {
            self.state = GameState::Finished(false);
            cell.set_state(CellState::Revealed);
            self.components.minefield.set_cell(&cell);
            proof {
                lemma_only_seed_changed(*self, pre, x as int, y as int);
            }
            return;
        }
        proof {
            components::minefield::lemma_count_bounds(pre.grid());
        }
        self.components.cells_counter.decrement();
        cell.set_state(CellState::Revealed);
        self.components.minefield.set_cell(&cell);
        if cell.kind().to_int() != 0 {
            proof {
                lemma_only_seed_changed(*self, pre, x as int, y as int);
                let o = pre.opts();
                assert forall|ax: int, ay: int|
                    self.board().in_bounds(ax, ay) && pre.board().cell_at(ax, ay).state
                        == CellState::Hidden && (#[trigger] self.board().cell_at(ax, ay)).state
                        == CellState::Revealed && self.board().adj_count(ax, ay) == 0 implies
                    no_hidden_neighbor(*self, ax, ay) by {
                    components::minefield::lemma_gidx_bounds(o, ax, ay);
                    components::minefield::lemma_gidx_bounds(o, x as int, y as int);
                    if gidx(o, ax, ay) == gidx(o, x as int, y as int) {
                        components::minefield::lemma_gidx_injective(o, ax, ay, x as int, y as int);
                        assert(false);
                    } else {
                        assert(false);
                    }
                }
            }
            return;
        }
        proof {
            assert(pre.board().adj_count(x as int, y as int) == 0);
            components::minefield::lemma_count_bounds(self.grid());
        }
        let mut stack: Vec<(usize, usize)> = Vec::new();
        stack.push((x, y));
        proof {
            lemma_only_seed_changed(*self, pre, x as int, y as int);
            let o = pre.opts();
            assert(stack@.contains((x, y)));
            assert(zero_reach(self.grid(), pre.opts(), x as int, y as int, x as int, y as int, 0));
            assert forall|ax: int, ay: int|
                self.board().in_bounds(ax, ay) && pre.board().cell_at(ax, ay).state
                    == CellState::Hidden && (#[trigger] self.board().cell_at(ax, ay)).state
                    == CellState::Revealed && self.board().adj_count(ax, ay) == 0 implies (
            no_hidden_neighbor(*self, ax, ay) || stack@.contains((ax as usize, ay as usize))) by {
                components::minefield::lemma_gidx_bounds(o, ax, ay);
                components::minefield::lemma_gidx_bounds(o, x as int, y as int);
                if gidx(o, ax, ay) == gidx(o, x as int, y as int) {
                    components::minefield::lemma_gidx_injective(o, ax, ay, x as int, y as int);
                    assert((ax as usize, ay as usize) == (x, y));
                } else {
                    assert(false);
                }
            }
        }
        while stack.len() != 0
            invariant
                pre.wf(),
                pre.spec_state() == GameState::Playing(false) || pre.spec_state()
                    == GameState::Finished(false),
                pre.board().in_bounds(x as int, y as int),
                pre.board().cell_at(x as int, y as int).state == CellState::Hidden,
                !pre.board().mined_at(x as int, y as int),
                self.wf(),
                self.spec_state() == pre.spec_state(),
                self.opts() == pre.opts(),
                self.board().spec_mines_placed() == pre.board().spec_mines_placed(),
                self.grid().len() == pre.grid().len(),
                self.flags_left() == pre.flags_left(),
                self.spec_components().button == pre.spec_components().button,
                self.spec_components().secs_counter == pre.spec_components().secs_counter,
                forall|i: int|
                    0 <= i < self.grid().len() ==> (#[trigger] self.grid()[i]).kind
                        == pre.grid()[i].kind,
                forall|i: int|
                    0 <= i < self.grid().len() && (#[trigger] self.grid()[i]).state
                        != pre.grid()[i].state ==> pre.grid()[i].state == CellState::Hidden
                        && self.grid()[i].state == CellState::Revealed,
                forall|i: int|
                    0 <= i < self.grid().len() && (#[trigger] self.grid()[i]).kind
                        == CellKind::Mined ==> self.grid()[i].state == pre.grid()[i].state,
                self.board().cell_at(x as int, y as int).state == CellState::Revealed,
                forall|k: int|
                    0 <= k < stack@.len() ==> self.board().in_bounds(
                        (#[trigger] stack@[k]).0 as int,
                        stack@[k].1 as int,
                    ) && self.board().adj_count(stack@[k].0 as int, stack@[k].1 as int) == 0
                        && self.board().cell_at(stack@[k].0 as int, stack@[k].1 as int).state
                        == CellState::Revealed && reaches_seed(
                        self.grid(),
                        pre.opts(),
                        x as int,
                        y as int,
                        stack@[k].0 as int,
                        stack@[k].1 as int,
                    ),
                forall|ax: int, ay: int|
                    self.board().in_bounds(ax, ay) && pre.board().cell_at(ax, ay).state
                        == CellState::Hidden && (#[trigger] self.board().cell_at(ax, ay)).state
                        == CellState::Revealed && self.board().adj_count(ax, ay) == 0 ==> (
                    no_hidden_neighbor(*self, ax, ay) || stack@.contains(
                        (ax as usize, ay as usize),
                    )),
                newly_revealed_sound(pre, *self, x as int, y as int),
                0 <= count_hidden(self.grid()),
            decreases count_hidden(self.grid()), stack@.len(),
        {
            let ghost ch0 = count_hidden(self.grid());
            let ghost sl0 = stack@.len() as int;
            let ghost stack_pre_pop = stack@;
            let cur = stack.pop().unwrap();
            let cx = cur.0;
            let cy = cur.1;
            proof {
                assert(stack_pre_pop[sl0 - 1] == cur);
                assert forall|ax: int, ay: int|
                    self.board().in_bounds(ax, ay) && pre.board().cell_at(ax, ay).state
                        == CellState::Hidden && (#[trigger] self.board().cell_at(ax, ay)).state
                        == CellState::Revealed && self.board().adj_count(ax, ay) == 0 && !(ax
                        == cx as int && ay == cy as int) implies (no_hidden_neighbor(*self, ax, ay)
                    || stack@.contains((ax as usize, ay as usize))) by {
                    if !no_hidden_neighbor(*self, ax, ay) {
                        assert(stack_pre_pop.contains((ax as usize, ay as usize)));
                        let k = choose|k: int|
                            0 <= k < stack_pre_pop.len() && stack_pre_pop[k] == (
                            ax as usize,
                            ay as usize,
                        );
                        if k == sl0 - 1 {
                            assert(false);
                        } else {
                            assert(stack@[k] == (ax as usize, ay as usize));
                        }
                    }
                }
            }
            let around = self.components.minefield.get_coords_around(cx, cy);
            let ghost around_seq = around@;
            let mut t: usize = 0;
            while t < around.len()
                invariant
                    t <= around_seq.len(),
                    around@ == around_seq,
                    pre.wf(),
                    pre.spec_state() == GameState::Playing(false) || pre.spec_state()
                        == GameState::Finished(false),
                    pre.board().in_bounds(x as int, y as int),
                    pre.board().cell_at(x as int, y as int).state == CellState::Hidden,
                    !pre.board().mined_at(x as int, y as int),
                    self.wf(),
                    self.spec_state() == pre.spec_state(),
                    self.opts() == pre.opts(),
                    self.board().spec_mines_placed() == pre.board().spec_mines_placed(),
                    self.grid().len() == pre.grid().len(),
                    self.flags_left() == pre.flags_left(),
                    self.spec_components().button == pre.spec_components().button,
                    self.spec_components().secs_counter == pre.spec_components().secs_counter,
                    forall|i: int|
                        0 <= i < self.grid().len() ==> (#[trigger] self.grid()[i]).kind
                            == pre.grid()[i].kind,
                    forall|i: int|
                        0 <= i < self.grid().len() && (#[trigger] self.grid()[i]).state
                            != pre.grid()[i].state ==> pre.grid()[i].state == CellState::Hidden
                            && self.grid()[i].state == CellState::Revealed,
                    forall|i: int|
                        0 <= i < self.grid().len() && (#[trigger] self.grid()[i]).kind
                            == CellKind::Mined ==> self.grid()[i].state == pre.grid()[i].state,
                    self.board().cell_at(x as int, y as int).state == CellState::Revealed,
                    self.board().in_bounds(cx as int, cy as int),
                    self.board().adj_count(cx as int, cy as int) == 0,
                    forall|kk: int|
                        0 <= kk < around_seq.len() ==> self.board().in_bounds(
                            (#[trigger] around_seq[kk]).0 as int,
                            around_seq[kk].1 as int,
                        ) && is_neighbor(
                            cx as int,
                            cy as int,
                            around_seq[kk].0 as int,
                            around_seq[kk].1 as int,
                        ),
                    forall|nx: int, ny: int|
                        self.board().in_bounds(nx, ny) && #[trigger] is_neighbor(
                            cx as int,
                            cy as int,
                            nx,
                            ny,
                        ) ==> around_seq.contains((nx as usize, ny as usize)),
                    forall|j: int|
                        0 <= j < t ==> self.board().cell_at(
                            (#[trigger] around_seq[j]).0 as int,
                            around_seq[j].1 as int,
                        ).state != CellState::Hidden,
                    forall|k: int|
                        0 <= k < stack@.len() ==> self.board().in_bounds(
                            (#[trigger] stack@[k]).0 as int,
                            stack@[k].1 as int,
                        ) && self.board().adj_count(stack@[k].0 as int, stack@[k].1 as int) == 0
                            && self.board().cell_at(stack@[k].0 as int, stack@[k].1 as int).state
                            == CellState::Revealed && reaches_seed(
                            self.grid(),
                            pre.opts(),
                            x as int,
                            y as int,
                            stack@[k].0 as int,
                            stack@[k].1 as int,
                        ),
                    self.board().cell_at(cx as int, cy as int).state == CellState::Revealed,
                    reaches_seed(self.grid(), pre.opts(), x as int, y as int, cx as int, cy as int),
                    forall|ax: int, ay: int|
                        self.board().in_bounds(ax, ay) && pre.board().cell_at(ax, ay).state
                            == CellState::Hidden && (#[trigger] self.board().cell_at(ax, ay)).state
                            == CellState::Revealed && self.board().adj_count(ax, ay) == 0 && !(ax
                            == cx as int && ay == cy as int) ==> (no_hidden_neighbor(
                            *self,
                            ax,
                            ay,
                        ) || stack@.contains((ax as usize, ay as usize))),
                    newly_revealed_sound(pre, *self, x as int, y as int),
                    0 <= count_hidden(self.grid()),
                    count_hidden(self.grid()) <= ch0,
                    count_hidden(self.grid()) + stack@.len() <= ch0 + sl0 - 1,
                decreases around_seq.len() - t,
            {
                let ghost h0 = *self;
                let pair = around[t];
                let nx = pair.0;
                let ny = pair.1;
                let ncell = self.components.minefield.get_cell_unchecked(nx, ny);
                if ncell.is_hidden() {
                    proof {
                        components::minefield::lemma_zero_cell_neighbor_unmined(
                            self.grid(),
                            self.opts(),
                            cx as int,
                            cy as int,
                            nx as int,
                            ny as int,
                        );
                        components::minefield::lemma_count_bounds(self.grid());
                    }
                    self.components.cells_counter.decrement();
                    let zero = ncell.kind().to_int() == 0;
                    let mut nc = ncell;
                    nc.set_state(CellState::Revealed);
                    let ghost g_b = self.grid();
                    self.components.minefield.set_cell(&nc);
                    proof {
                        let o = self.opts();
                        let ii = gidx(o, nx as int, ny as int);
                        components::minefield::lemma_count_bounds(self.grid());
                        assert(self.board().cell_at(x as int, y as int).state
                            == CellState::Revealed) by {
                            components::minefield::lemma_gidx_bounds(o, x as int, y as int);
                            if ii == gidx(o, x as int, y as int) {
                                assert(g_b[ii].state == CellState::Hidden);
                                assert(false);
                            }
                        }
                        assert(self.board().cell_at(cx as int, cy as int).state
                            == CellState::Revealed || self.board().adj_count(cx as int, cy as int)
                            == 0);
                    }
                    proof {
                        let o = pre.opts();
                        let ii = gidx(o, nx as int, ny as int);
                        components::minefield::lemma_gidx_bounds(o, cx as int, cy as int);
                        assert(self.board().cell_at(cx as int, cy as int).state
                            == CellState::Revealed);
                        assert forall|k: int|
                            0 <= k < stack@.len() implies self.board().cell_at(
                            (#[trigger] stack@[k]).0 as int,
                            stack@[k].1 as int,
                        ).state == CellState::Revealed by {
                            components::minefield::lemma_gidx_bounds(
                                o,
                                stack@[k].0 as int,
                                stack@[k].1 as int,
                            );
                        }
                        assert forall|i: int|
                            0 <= i < h0.grid().len() implies (#[trigger] self.grid()[i]).kind
                            == h0.grid()[i].kind by {}
                        assert forall|i: int|
                            0 <= i < h0.grid().len() && (#[trigger] h0.grid()[i]).state
                                == CellState::Revealed implies self.grid()[i].state
                            == CellState::Revealed by {}
                        let g_a = h0.grid();
                        let g_n = self.grid();
                        assert(reaches_seed(g_a, o, x as int, y as int, cx as int, cy as int));
                        let nc0 = choose|n: nat|
                            zero_reach(g_a, o, x as int, y as int, cx as int, cy as int, n);
                        lemma_zero_reach_monotone(
                            g_a,
                            g_n,
                            o,
                            x as int,
                            y as int,
                            cx as int,
                            cy as int,
                            nc0,
                        );
                        assert(reaches_seed(g_n, o, x as int, y as int, cx as int, cy as int));
                        assert forall|k: int|
                            0 <= k < stack@.len() implies reaches_seed(
                            g_n,
                            o,
                            x as int,
                            y as int,
                            (#[trigger] stack@[k]).0 as int,
                            stack@[k].1 as int,
                        ) by {
                            let nk = choose|n: nat|
                                zero_reach(
                                    g_a,
                                    o,
                                    x as int,
                                    y as int,
                                    stack@[k].0 as int,
                                    stack@[k].1 as int,
                                    n,
                                );
                            lemma_zero_reach_monotone(
                                g_a,
                                g_n,
                                o,
                                x as int,
                                y as int,
                                stack@[k].0 as int,
                                stack@[k].1 as int,
                                nk,
                            );
                        }
                        assert(zero_reach(
                            g_n,
                            o,
                            x as int,
                            y as int,
                            nx as int,
                            ny as int,
                            (nc0 + 1) as nat,
                        )) by {
                            assert(grid_in_bounds(o, cx as int, cy as int) && is_neighbor(
                                nx as int,
                                ny as int,
                                cx as int,
                                cy as int,
                            ) && g_n[gidx(o, cx as int, cy as int)].state == CellState::Revealed
                                && grid_adj_count(g_n, o, cx as int, cy as int) == 0 && zero_reach(
                                g_n,
                                o,
                                x as int,
                                y as int,
                                cx as int,
                                cy as int,
                                ((nc0 + 1) as nat - 1) as nat,
                            ));
                        }
                        assert(reaches_seed(g_n, o, x as int, y as int, nx as int, ny as int));
                        assert forall|ax: int, ay: int|
                            self.board().in_bounds(ax, ay) && (#[trigger] self.board().cell_at(
                                ax,
                                ay,
                            )).state == CellState::Revealed && pre.board().cell_at(ax, ay).state
                                != CellState::Revealed && !(ax == x as int && ay == y as int)
                            implies reaches_seed(g_n, o, x as int, y as int, ax, ay) by {
                            components::minefield::lemma_gidx_bounds(o, ax, ay);
                            if gidx(o, ax, ay) == ii {
                                components::minefield::lemma_gidx_injective(
                                    o,
                                    ax,
                                    ay,
                                    nx as int,
                                    ny as int,
                                );
                                assert(zero_reach(
                                    g_n,
                                    o,
                                    x as int,
                                    y as int,
                                    ax,
                                    ay,
                                    (nc0 + 1) as nat,
                                )) by {
                                    assert(grid_in_bounds(o, cx as int, cy as int) && is_neighbor(
                                        ax,
                                        ay,
                                        cx as int,
                                        cy as int,
                                    ) && g_n[gidx(o, cx as int, cy as int)].state
                                        == CellState::Revealed && grid_adj_count(
                                        g_n,
                                        o,
                                        cx as int,
                                        cy as int,
                                    ) == 0 && zero_reach(
                                        g_n,
                                        o,
                                        x as int,
                                        y as int,
                                        cx as int,
                                        cy as int,
                                        ((nc0 + 1) as nat - 1) as nat,
                                    ));
                                }
                            } else {
                                assert(h0.board().cell_at(ax, ay).state == CellState::Revealed);
                                assert(reaches_seed(g_a, o, x as int, y as int, ax, ay));
                                let na = choose|n: nat|
                                    zero_reach(g_a, o, x as int, y as int, ax, ay, n);
                                lemma_zero_reach_monotone(
                                    g_a,
                                    g_n,
                                    o,
                                    x as int,
                                    y as int,
                                    ax,
                                    ay,
                                    na,
                                );
                            }
                        }
                        assert forall|j: int|
                            0 <= j < t as int + 1 implies self.board().cell_at(
                            (#[trigger] around_seq[j]).0 as int,
                            around_seq[j].1 as int,
                        ).state != CellState::Hidden by {
                            components::minefield::lemma_gidx_bounds(
                                o,
                                around_seq[j].0 as int,
                                around_seq[j].1 as int,
                            );
                        }
                    }
                    if zero {
                        stack.push((nx, ny));
                        proof {
                            assert(self.board().adj_count(nx as int, ny as int) == 0);
                            assert(reaches_seed(
                                self.grid(),
                                pre.opts(),
                                x as int,
                                y as int,
                                nx as int,
                                ny as int,
                            ));
                        }
                    }
                    proof {
                        let o = pre.opts();
                        let ii = gidx(o, nx as int, ny as int);
                        assert forall|ax: int, ay: int|
                            self.board().in_bounds(ax, ay) && pre.board().cell_at(ax, ay).state
                                == CellState::Hidden && (#[trigger] self.board().cell_at(
                                ax,
                                ay,
                            )).state == CellState::Revealed && self.board().adj_count(ax, ay) == 0
                                && !(ax == cx as int && ay == cy as int) implies (
                        no_hidden_neighbor(*self, ax, ay) || stack@.contains(
                            (ax as usize, ay as usize),
                        )) by {
                            components::minefield::lemma_gidx_bounds(o, ax, ay);
                            if gidx(o, ax, ay) == ii {
                                components::minefield::lemma_gidx_injective(
                                    o,
                                    ax,
                                    ay,
                                    nx as int,
                                    ny as int,
                                );
                                if zero {
                                    assert(stack@.contains((ax as usize, ay as usize)));
                                } else {
                                    assert(self.wf());
                                    assert(false);
                                }
                            } else {
                                assert(h0.board().cell_at(ax, ay).state == CellState::Revealed);
                                if !no_hidden_neighbor(h0, ax, ay) {
                                    assert(stack@.contains((ax as usize, ay as usize)));
                                } else {
                                    assert forall|bx: int, by: int|
                                        self.board().in_bounds(bx, by) && #[trigger] is_neighbor(
                                            ax,
                                            ay,
                                            bx,
                                            by,
                                        ) implies self.board().cell_at(bx, by).state
                                        != CellState::Hidden by {
                                        components::minefield::lemma_gidx_bounds(o, bx, by);
                                        assert(h0.board().cell_at(bx, by).state
                                            != CellState::Hidden);
                                    }
                                }
                            }
                        }
                    }
                } else {
                    proof {
                        let o = pre.opts();
                        assert forall|j: int|
                            0 <= j < t as int + 1 implies self.board().cell_at(
                            (#[trigger] around_seq[j]).0 as int,
                            around_seq[j].1 as int,
                        ).state != CellState::Hidden by {
                            components::minefield::lemma_gidx_bounds(
                                o,
                                around_seq[j].0 as int,
                                around_seq[j].1 as int,
                            );
                        }
                    }
                }
                t = t + 1;
            }
            proof {
                assert(no_hidden_neighbor(*self, cx as int, cy as int)) by {
                    assert forall|nx: int, ny: int|
                        self.board().in_bounds(nx, ny) && #[trigger] is_neighbor(
                            cx as int,
                            cy as int,
                            nx,
                            ny,
                        ) implies self.board().cell_at(nx, ny).state != CellState::Hidden by {
                        assert(around_seq.contains((nx as usize, ny as usize)));
                        let j = choose|j: int|
                            0 <= j < around_seq.len() && around_seq[j] == (
                            nx as usize,
                            ny as usize,
                        );
                        assert(self.board().cell_at(
                            around_seq[j].0 as int,
                            around_seq[j].1 as int,
                        ).state != CellState::Hidden);
                    }
                }
            }
        }
    }

    /// Stops the clock once the game has ended; nothing else changes.
    fn finish(&mut self)
        requires
            old(self).wf(),
        ensures
            final(self).wf(),
            final(self).spec_state() == old(self).spec_state(),
            final(self).spec_components().minefield == old(self).spec_components().minefield,
            final(self).cells_left() == old(self).cells_left(),
            final(self).flags_left() == old(self).flags_left(),
            final(self).spec_components().button == old(self).spec_components().button,
            final(self).spec_components().secs_counter.spec_idle(),
            final(self).spec_components().secs_counter.spec_secs()
                == old(self).spec_components().secs_counter.spec_secs(),
    {
        self.components.secs_counter.stop();
    }

    /// The win check that follows every open: when no safe cell is left the
    /// game is won, and whenever the game has just ended the clock stops.
    fn settle(&mut self)
        requires
            old(self).wf(),
            old(self).spec_state() == GameState::Playing(false) || old(self).spec_state()
                == GameState::Finished(false),
        ensures
            final(self).wf(),
            final(self).settled(),
            final(self).spec_components().minefield == old(self).spec_components().minefield,
            final(self).cells_left() == old(self).cells_left(),
            final(self).flags_left() == old(self).flags_left(),
            final(self).spec_components().button == old(self).spec_components().button,
            final(self).spec_state() == (if old(self).cells_left() == 0 {
                GameState::Finished(true)
            } else {
                old(self).spec_state()
            }),
            is_finished(final(self).spec_state())
                ==> final(self).spec_components().secs_counter.spec_idle(),
            !is_finished(final(self).spec_state()) ==> final(self).spec_components().secs_counter
                == old(self).spec_components().secs_counter,
    {
        if self.components.cells_counter.get_count() == 0 {
            self.state = GameState::Finished(true);
        }
        match self.state {
            GameState::Finished(_) => self.finish(),
            _ => {},
        }
        proof {
            components::minefield::lemma_count_bounds(self.grid());
        }
    }

    /// A secondary click: flags a hidden cell (one flag spent), unflags a
    /// flagged cell (one flag returned), and leaves a revealed cell alone.
    /// Nothing else on the board or in the engine moves.
    pub fn toggle_flag(&mut self, x: usize, y: usize)
        requires
            old(self).wf(),
            is_playing(old(self).spec_state()),
            old(self).board().in_bounds(x as int, y as int),
        ensures
            toggle_rel(*old(self), *final(self), x as int, y as int),
    {
        let mut cell = self.components.minefield.get_cell_unchecked(x, y);
        proof {
            components::minefield::lemma_count_bounds(self.grid());
            components::minefield::lemma_size_bounds(self.opts());
        }
        match cell.state() {
            CellState::Hidden => {
                self.components.flags_counter.decrement();
                cell.set_state(CellState::Flagged);
                self.components.minefield.set_cell(&cell);
            },
            CellState::Flagged => {
                self.components.flags_counter.increment();
                cell.set_state(CellState::Hidden);
                self.components.minefield.set_cell(&cell);
            },
            CellState::Revealed => {},
        }
    }

    /// The chord action: opens every currently hidden neighbor of (x, y),
    /// flood-filling as each open does. The game is lost by the chord
    /// exactly when it reveals a mine.
    pub fn open_around(&mut self, x: usize, y: usize)
        requires
            old(self).wf(),
            old(self).spec_state() == GameState::Playing(false) || old(self).spec_state()
                == GameState::Finished(false),
            old(self).board().in_bounds(x as int, y as int),
        ensures
            final(self).wf(),
            final(self).opts() == old(self).opts(),
            final(self).board().spec_mines_placed() == old(self).board().spec_mines_placed(),
            final(self).grid().len() == old(self).grid().len(),
            final(self).flags_left() == old(self).flags_left(),
            final(self).spec_components().button == old(self).spec_components().button,
            final(self).spec_components().secs_counter == old(self).spec_components().secs_counter,
            forall|i: int|
                0 <= i < final(self).grid().len() ==> (#[trigger] final(self).grid()[i]).kind
                    == old(self).grid()[i].kind,
            forall|i: int|
                0 <= i < final(self).grid().len() && (#[trigger] final(self).grid()[i]).state
                    != old(self).grid()[i].state ==> old(self).grid()[i].state
                    == CellState::Hidden && final(self).grid()[i].state == CellState::Revealed,
            forall|nx: int, ny: int|
                old(self).board().in_bounds(nx, ny) && #[trigger] is_neighbor(
                    x as int,
                    y as int,
                    nx,
                    ny,
                ) && old(self).board().cell_at(nx, ny).state == CellState::Hidden
                    ==> final(self).board().cell_at(nx, ny).state == CellState::Revealed,
            final(self).spec_state() == old(self).spec_state() || final(self).spec_state()
                == GameState::Finished(false),
            (final(self).spec_state() == GameState::Finished(false) <==> (old(self).spec_state()
                == GameState::Finished(false) || exists|i: int|
                0 <= i < final(self).grid().len() && (#[trigger] final(self).grid()[i]).kind
                    == CellKind::Mined && final(self).grid()[i].state
                    != old(self).grid()[i].state)),
    {
        let ghost pre = *self;
        let around = self.components.minefield.get_coords_around(x, y);
        let ghost around_seq = around@;
        let mut t: usize = 0;
        while t < around.len()
            invariant
                t <= around_seq.len(),
                around@ == around_seq,
                pre.wf(),
                pre.spec_state() == GameState::Playing(false) || pre.spec_state()
                    == GameState::Finished(false),
                pre.board().in_bounds(x as int, y as int),
                self.wf(),
                self.opts() == pre.opts(),
                self.board().spec_mines_placed() == pre.board().spec_mines_placed(),
                self.grid().len() == pre.grid().len(),
                self.flags_left() == pre.flags_left(),
                self.spec_components().button == pre.spec_components().button,
                self.spec_components().secs_counter == pre.spec_components().secs_counter,
                forall|i: int|
                    0 <= i < self.grid().len() ==> (#[trigger] self.grid()[i]).kind
                        == pre.grid()[i].kind,
                forall|i: int|
                    0 <= i < self.grid().len() && (#[trigger] self.grid()[i]).state
                        != pre.grid()[i].state ==> pre.grid()[i].state == CellState::Hidden
                        && self.grid()[i].state == CellState::Revealed,
                forall|kk: int|
                    0 <= kk < around_seq.len() ==> self.board().in_bounds(
                        (#[trigger] around_seq[kk]).0 as int,
                        around_seq[kk].1 as int,
                    ),
                forall|j: int|
                    0 <= j < t && pre.board().cell_at(
                        (#[trigger] around_seq[j]).0 as int,
                        around_seq[j].1 as int,
                    ).state == CellState::Hidden ==> self.board().cell_at(
                        around_seq[j].0 as int,
                        around_seq[j].1 as int,
                    ).state == CellState::Revealed,
                self.spec_state() == pre.spec_state() || self.spec_state() == GameState::Finished(
                    false,
                ),
                (self.spec_state() == GameState::Finished(false) <==> (pre.spec_state()
                    == GameState::Finished(false) || exists|i: int|
                    0 <= i < self.grid().len() && (#[trigger] self.grid()[i]).kind
                        == CellKind::Mined && self.grid()[i].state != pre.grid()[i].state)),
            decreases around_seq.len() - t,
        {
            let pair = around[t];
            let nx = pair.0;
            let ny = pair.1;
            let ncell = self.components.minefield.get_cell_unchecked(nx, ny);
            if ncell.is_hidden() {
                let ghost mid = *self;
                self.open_cell(nx, ny);
                proof {
                    let o = pre.opts();
                    let ii = gidx(o, nx as int, ny as int);
                    components::minefield::lemma_gidx_bounds(o, nx as int, ny as int);
                    assert forall|j: int|
                        0 <= j < t as int + 1 && pre.board().cell_at(
                            (#[trigger] around_seq[j]).0 as int,
                            around_seq[j].1 as int,
                        ).state == CellState::Hidden implies self.board().cell_at(
                        around_seq[j].0 as int,
                        around_seq[j].1 as int,
                    ).state == CellState::Revealed by {
                        components::minefield::lemma_gidx_bounds(
                            o,
                            around_seq[j].0 as int,
                            around_seq[j].1 as int,
                        );
                        if j < t as int {
                            assert(mid.board().cell_at(
                                around_seq[j].0 as int,
                                around_seq[j].1 as int,
                            ).state == CellState::Revealed);
                        }
                    }
                    if mid.board().mined_at(nx as int, ny as int) {
                        assert(self.grid()[ii].kind == CellKind::Mined);
                        assert(self.grid()[ii].state != pre.grid()[ii].state);
                        assert(self.spec_state() == GameState::Finished(false));
                    } else {
                        if mid.spec_state() == GameState::Finished(false) && pre.spec_state()
                            != GameState::Finished(false) {
                            let w = choose|w: int|
                                0 <= w < mid.grid().len() && (#[trigger] mid.grid()[w]).kind
                                    == CellKind::Mined && mid.grid()[w].state
                                    != pre.grid()[w].state;
                            assert(self.grid()[w].state == mid.grid()[w].state);
                            assert(self.grid()[w].kind == CellKind::Mined && self.grid()[w].state
                                != pre.grid()[w].state);
                        }
                        if self.spec_state() != GameState::Finished(false) {
                            assert forall|i: int|
                                0 <= i < self.grid().len() && (#[trigger] self.grid()[i]).kind
                                    == CellKind::Mined implies self.grid()[i].state
                                == pre.grid()[i].state by {
                                assert(mid.grid()[i].kind == CellKind::Mined);
                                assert(self.grid()[i].state == mid.grid()[i].state);
                                assert(mid.grid()[i].state == pre.grid()[i].state);
                            }
                        }
                    }
                }
            } else {
                proof {
                    let o = pre.opts();
                    let ii = gidx(o, nx as int, ny as int);
                    components::minefield::lemma_gidx_bounds(o, nx as int, ny as int);
                    if pre.board().cell_at(nx as int, ny as int).state == CellState::Hidden {
                        assert(self.grid()[ii].state != pre.grid()[ii].state);
                        assert(self.board().cell_at(nx as int, ny as int).state
                            == CellState::Revealed);
                    }
                }
            }
            t = t + 1;
        }
        proof {
            assert forall|nx: int, ny: int|
                pre.board().in_bounds(nx, ny) && #[trigger] is_neighbor(x as int, y as int, nx, ny)
                    && pre.board().cell_at(nx, ny).state == CellState::Hidden implies self.board(
            ).cell_at(nx, ny).state == CellState::Revealed by {
                assert(around_seq.contains((nx as usize, ny as usize)));
                let j = choose|j: int|
                    0 <= j < around_seq.len() && around_seq[j] == (nx as usize, ny as usize);
                assert(pre.board().cell_at(around_seq[j].0 as int, around_seq[j].1 as int).state
                    == CellState::Hidden);
            }
        }
    }

    /// The first click of a game, with the mine draw handed in as plain
    /// values: mines go down everywhere but at the clicked cell, the clock
    /// starts, and the click is then opened like any other. Everything here
    /// is verified for every possible draw.
    pub fn handle_first_click(&mut self, x: usize, y: usize, picks: &Vec<usize>)
        requires
            old(self).wf(),
            old(self).spec_state() == GameState::Playing(true),
            old(self).board().in_bounds(x as int, y as int),
            old(self).board().cell_at(x as int, y as int).state != CellState::Flagged,
            picks@.len() == old(self).opts().mines,
            forall|j: int| 0 <= j < picks@.len() ==> (#[trigger] picks@[j]) < old(self).opts().size() - 1,
            forall|j1: int, j2: int| 0 <= j1 < j2 < picks@.len() ==> picks@[j1] != picks@[j2],
        ensures
            final(self).wf(),
            final(self).settled(),
            final(self).opts() == old(self).opts(),
            final(self).board().spec_mines_placed(),
            !final(self).board().mined_at(x as int, y as int),
            final(self).board().cell_at(x as int, y as int).state == CellState::Revealed,
            final(self).flags_left() == old(self).flags_left(),
            final(self).spec_components().button == old(self).spec_components().button,
            final(self).cells_left() == count_safe_unrevealed(final(self).grid()),
            final(self).spec_state() == (if final(self).cells_left() == 0 {
                GameState::Finished(true)
            } else {
                GameState::Playing(false)
            }),
            is_finished(final(self).spec_state())
                ==> final(self).spec_components().secs_counter.spec_idle(),
            !is_finished(final(self).spec_state())
                ==> !final(self).spec_components().secs_counter.spec_idle(),
            forall|i: int|
                0 <= i < final(self).grid().len() ==> ((#[trigger] final(self).grid()[i]).kind
                    == CellKind::Mined <==> components::minefield::picks_mined(
                    picks@,
                    gidx(old(self).opts(), x as int, y as int),
                    i,
                )),
    {
        let ghost pre = *self;
        self.components.minefield.place_mines_at(picks, x, y);
        self.state = GameState::Playing(false);
        self.components.secs_counter.start();
        proof {
            assert forall|i: int| 0 <= i < self.grid().len() implies (
            #[trigger] self.grid()[i]).state != CellState::Revealed by {
                assert(self.grid()[i].state == pre.grid()[i].state);
            }
            components::minefield::lemma_count_safe_unrevealed_none_revealed(self.grid());
            components::minefield::lemma_count_states_pointwise(pre.grid(), self.grid());
            components::minefield::lemma_gidx_bounds(pre.opts(), x as int, y as int);
            assert(self.board().cell_at(x as int, y as int).state == CellState::Hidden);
            assert(self.wf());
        }
        self.open_cell(x, y);
        self.settle();
    }

    /// The full primary-click dispatch of the game table, on a board
    /// position. An idle game places the mines first (unless the cell is
    /// flagged); an active game opens a hidden cell, chords a numbered cell
    /// exactly when its flag count matches its number, and ignores anything
    /// else; the win check runs after every open.
    pub fn handle_left_click(&mut self, x: usize, y: usize)
        requires
            old(self).wf(),
            old(self).settled(),
            is_playing(old(self).spec_state()),
            old(self).board().in_bounds(x as int, y as int),
        ensures
            click_rel(*old(self), *final(self), x as int, y as int),
    {
        let idle = match self.state {
            GameState::Playing(true) => true,
            _ => false,
        };
        if idle {
            let cell = self.components.minefield.get_cell_unchecked(x, y);
            if cell.is_flagged() {
                return;
            }
            let o = self.components.minefield.options();
            proof {
                components::minefield::lemma_size_bounds(o);
            }
            let total = o.cols * o.rows;
            let picks = MineField::sample_indices(total - 1, o.mines);
            self.handle_first_click(x, y, &picks);
            return;
        }
        let cell = self.components.minefield.get_cell_unchecked(x, y);
        match cell.state() {
            CellState::Hidden => {
                self.open_cell(x, y);
                self.settle();
            },
            CellState::Flagged => {},
            CellState::Revealed => {
                let k = cell.kind().to_int();
                if k != 0 {
                    let flags = self.components.minefield.count_flags_around(x, y);
                    if k == flags {
                        self.open_around(x, y);
                        self.settle();
                    }
                }
            },
        }
    }

    /// Restart while idle: the button clears; if no flag is placed the board
    /// is not touched at all, otherwise the flags counter refills and the
    /// (still mine-free) board is cleared.
    fn restart_if_idle(&mut self)
        requires
            old(self).wf(),
            old(self).spec_state() == GameState::Playing(true),
        ensures
            restart_rel(*old(self), *final(self)),
    {
        let options = self.components.minefield.options();
        proof {
            components::minefield::lemma_size_bounds(options);
        }
        let flags_count = options.mines as i32;
        self.components.button.release();
        if self.components.flags_counter.get_count() == flags_count {
            return;
        }
        self.components.flags_counter.set_count(flags_count);
        self.components.minefield.reset();
    }

    /// Fired by releasing the restart control while hovered: back to an idle
    /// game. A pristine idle board is kept as it is; anything else is fully
    /// cleared.
    pub fn restart(&mut self)
        requires
            old(self).wf(),
        ensures
            old(self).spec_state() != GameState::Quitted ==> restart_rel(
                *old(self),
                *final(self),
            ),
            old(self).spec_state() == GameState::Quitted ==> *final(self) == *old(self),
    {
        match self.state {
            GameState::Quitted => {},
            GameState::Playing(true) => self.restart_if_idle(),
            _ => {
                self.state = GameState::Playing(true);
                self.components.reset();
            },
        }
    }

    /// A primary release. A pressed button fires restart when still hovered
    /// and merely clears otherwise; with the button untouched and a game in
    /// play, a release over a cell is the click dispatch; anything else is
    /// ignored.
    pub fn left_release(&mut self, target: Option<(usize, usize)>)
        requires
            old(self).wf(),
            old(self).settled(),
        ensures
            final(self).wf(),
            final(self).settled(),
            old(self).spec_state() == GameState::Quitted ==> *final(self) == *old(self),
            old(self).spec_state() != GameState::Quitted && old(self).spec_components().button.is_pressed && old(self).spec_components().button.is_hovered
                ==> restart_rel(*old(self), *final(self)),
            old(self).spec_state() != GameState::Quitted && old(self).spec_components().button.is_pressed && !old(self).spec_components().button.is_hovered
                ==> final(self).spec_state() == old(self).spec_state() && final(self).spec_components().minefield == old(self).spec_components().minefield && final(self).cells_left() == old(self).cells_left() && final(self).flags_left() == old(self).flags_left() && final(self).spec_components().secs_counter == old(self).spec_components().secs_counter && !final(self).spec_components().button.is_pressed
                && !final(self).spec_components().button.is_hovered,
            !old(self).spec_components().button.is_pressed && is_playing(old(self).spec_state())
                && target is Some && old(self).board().in_bounds(
                (target->0).0 as int,
                (target->0).1 as int,
            ) ==> click_rel(
                *old(self),
                *final(self),
                (target->0).0 as int,
                (target->0).1 as int,
            ),
            !old(self).spec_components().button.is_pressed && !(is_playing(old(self).spec_state())
                && target is Some && old(self).board().in_bounds(
                (target->0).0 as int,
                (target->0).1 as int,
            )) ==> *final(self) == *old(self),
    {
        match self.state {
            GameState::Quitted => {
                return;
            },
            _ => {},
        }
        if self.components.button.is_pressed {
            if self.components.button.is_hovered {
                self.restart();
            } else {
                self.components.button.is_pressed = false;
            }
            return;
        }
        let playing = match self.state {
            GameState::Playing(_) => true,
            _ => false,
        };
        if playing {
            if let Some((x, y)) = target {
                let o = self.components.minefield.options();
                if x < o.cols && y < o.rows {
                    self.handle_left_click(x, y);
                }
            }
        }
    }

    /// Each frame's clock poll: hands the renderer a fresh whole-seconds
    /// value exactly when the running clock has one; nothing else in the
    /// engine moves.
    pub fn poll_secs(&mut self) -> (r: Option<u64>)
        requires
            old(self).wf(),
        ensures
            final(self).wf(),
            final(self).settled() == old(self).settled(),
            final(self).spec_state() == old(self).spec_state(),
            final(self).spec_components().minefield == old(self).spec_components().minefield,
            final(self).cells_left() == old(self).cells_left(),
            final(self).flags_left() == old(self).flags_left(),
            final(self).spec_components().button == old(self).spec_components().button,
            final(self).spec_components().secs_counter.spec_idle() == old(self).spec_components().secs_counter.spec_idle(),
            final(self).spec_components().secs_counter.spec_secs() >= old(self).spec_components().secs_counter.spec_secs(),
            old(self).spec_components().secs_counter.spec_idle() ==> r is None && final(self).spec_components().secs_counter == old(self).spec_components().secs_counter,
            r is Some ==> r->0 as int == final(self).spec_components().secs_counter.spec_secs()
                && final(self).spec_components().secs_counter.spec_secs() > old(self).spec_components().secs_counter.spec_secs(),
            r is None ==> final(self).spec_components().secs_counter.spec_secs() == old(self).spec_components().secs_counter.spec_secs(),
            !old(self).spec_components().secs_counter.spec_idle() && old(self).spec_components().secs_counter.spec_secs() == 0 ==> r is Some,
    {
        self.components.secs_counter.get_secs()
    }

    /// A secondary click: toggles the flag on the cell under the pointer
    /// while a game is being played, and does nothing otherwise.
    pub fn right_click(&mut self, target: Option<(usize, usize)>)
        requires
            old(self).wf(),
        ensures
            final(self).wf(),
            final(self).settled() == old(self).settled(),
            is_playing(old(self).spec_state()) && target is Some && old(self).board().in_bounds(
                (target->0).0 as int,
                (target->0).1 as int,
            ) ==> toggle_rel(*old(self), *final(self), (target->0).0 as int, (target->0).1 as int),
            !(is_playing(old(self).spec_state()) && target is Some && old(self).board().in_bounds(
                (target->0).0 as int,
                (target->0).1 as int,
            )) ==> *final(self) == *old(self),
    {
        let playing = match self.state {
            GameState::Playing(_) => true,
            _ => false,
        };
        if playing {
            if let Some((x, y)) = target {
                let o = self.components.minefield.options();
                if x < o.cols && y < o.rows {
                    self.toggle_flag(x, y);
                }
            }
        }
    }
}

/// What a flag toggle does: only the one cell's visibility and the flags
/// counter move, and only between hidden and flagged.
pub open spec fn toggle_rel(pre: GameHandler, post: GameHandler, x: int, y: int) -> bool {
    &&& post.wf()
    &&& post.settled() == pre.settled()
    &&& post.spec_state() == pre.spec_state()
    &&& post.opts() == pre.opts()
    &&& post.board().spec_mines_placed() == pre.board().spec_mines_placed()
    &&& post.cells_left() == pre.cells_left()
    &&& post.spec_components().button == pre.spec_components().button
    &&& post.spec_components().secs_counter == pre.spec_components().secs_counter
    &&& forall|i: int|
        0 <= i < post.grid().len() ==> (#[trigger] post.grid()[i]).kind == pre.grid()[i].kind
    &&& forall|i: int|
        0 <= i < post.grid().len() && i != gidx(pre.opts(), x, y) ==> (
        #[trigger] post.grid()[i]).state == pre.grid()[i].state
    &&& (pre.board().cell_at(x, y).state == CellState::Hidden ==> post.board().cell_at(x, y).state
        == CellState::Flagged && post.flags_left() == pre.flags_left() - 1)
    &&& (pre.board().cell_at(x, y).state == CellState::Flagged ==> post.board().cell_at(x, y).state
        == CellState::Hidden && post.flags_left() == pre.flags_left() + 1)
    &&& (pre.board().cell_at(x, y).state == CellState::Revealed ==> post == pre)
}

/// What a restart does, from each of the states it can start in. It always
/// ends in an idle game with the button cleared; started from a pristine
/// idle game it does not touch the board at all; started from an idle game
/// with flags placed it only refills the flags and clears the (mine-free)
/// board; from anywhere else everything is reset.
pub open spec fn restart_rel(pre: GameHandler, post: GameHandler) -> bool {
    &&& post.wf()
    &&& post.settled()
    &&& post.opts() == pre.opts()
    &&& post.spec_state() == GameState::Playing(true)
    &&& !post.spec_components().button.is_pressed
    &&& !post.spec_components().button.is_hovered
    &&& (pre.spec_state() == GameState::Playing(true) && pre.flags_left() == pre.opts().mines
        ==> post.spec_components().minefield == pre.spec_components().minefield
        && post.cells_left() == pre.cells_left() && post.flags_left() == pre.flags_left()
        && post.spec_components().secs_counter == pre.spec_components().secs_counter)
    &&& (pre.spec_state() == GameState::Playing(true) && pre.flags_left() != pre.opts().mines
        ==> post.board().kinds_clear() && post.board().all_hidden()
        && !post.board().spec_mines_placed() && post.flags_left() == post.opts().mines
        && post.cells_left() == pre.cells_left() && post.spec_components().secs_counter
        == pre.spec_components().secs_counter)
    &&& (pre.spec_state() != GameState::Playing(true) ==> post.board().kinds_clear()
        && post.board().all_hidden() && !post.board().spec_mines_placed() && post.flags_left()
        == post.opts().mines && post.cells_left() == post.opts().size() - post.opts().mines
        && post.spec_components().secs_counter.spec_idle())
}

/// What one primary click on a cell does, across the whole game table.
pub open spec fn click_rel(pre: GameHandler, post: GameHandler, x: int, y: int) -> bool {
    &&& post.wf()
    &&& post.settled()
    &&& post.opts() == pre.opts()
    &&& post.flags_left() == pre.flags_left()
    &&& post.spec_components().button == pre.spec_components().button
    &&& (is_finished(post.spec_state()) ==> post.spec_components().secs_counter.spec_idle())
    &&& (pre.spec_state() == GameState::Playing(true) && pre.board().cell_at(x, y).state
        == CellState::Flagged ==> post == pre)
    &&& (pre.spec_state() == GameState::Playing(true) && pre.board().cell_at(x, y).state
        != CellState::Flagged ==> post.board().spec_mines_placed() && !post.board().mined_at(x, y)
        && post.board().cell_at(x, y).state == CellState::Revealed && post.cells_left()
        == count_safe_unrevealed(post.grid()) && (!is_finished(post.spec_state())
        ==> !post.spec_components().secs_counter.spec_idle()) && post.spec_state() == (
    if post.cells_left() == 0 {
        GameState::Finished(true)
    } else {
        GameState::Playing(false)
    }))
    &&& (pre.spec_state() == GameState::Playing(false) ==> active_click_rel(pre, post, x, y))
}

/// The active-game half of the click table: open a hidden cell (losing on a
/// mine, winning when the last safe cell falls), chord a numbered cell
/// exactly when its flag count matches, and change nothing otherwise.
pub open spec fn active_click_rel(pre: GameHandler, post: GameHandler, x: int, y: int) -> bool {
    let c = pre.board().cell_at(x, y);
    &&& (forall|i: int|
        0 <= i < post.grid().len() ==> (#[trigger] post.grid()[i]).kind == pre.grid()[i].kind)
    &&& (forall|i: int|
        0 <= i < post.grid().len() && (#[trigger] post.grid()[i]).state != pre.grid()[i].state
            ==> pre.grid()[i].state == CellState::Hidden && post.grid()[i].state
            == CellState::Revealed)
    &&& post.cells_left() == count_safe_unrevealed(post.grid())
    &&& (c.state == CellState::Flagged ==> post == pre)
    &&& (c.state == CellState::Revealed && (c.kind.as_int() == 0 || c.kind.as_int()
        != pre.board().flag_count(x, y)) ==> post == pre)
    &&& (c.state == CellState::Hidden && pre.board().mined_at(x, y) ==> post.spec_state()
        == GameState::Finished(false) && post.cells_left() == pre.cells_left()
        && post.board().cell_at(x, y).state == CellState::Revealed && (forall|i: int|
        0 <= i < post.grid().len() && i != gidx(pre.opts(), x, y) ==> (
        #[trigger] post.grid()[i]).state == pre.grid()[i].state))
    &&& (c.state == CellState::Hidden && !pre.board().mined_at(x, y) ==> post.board().cell_at(
        x,
        y,
    ).state == CellState::Revealed && newly_revealed_closed(pre, post) && newly_revealed_sound(
        pre,
        post,
        x,
        y,
    ) && post.spec_state() == (
    if post.cells_left() == 0 {
        GameState::Finished(true)
    } else {
        GameState::Playing(false)
    }))
    &&& (c.state == CellState::Revealed && c.kind.as_int() != 0 && c.kind.as_int()
        == pre.board().flag_count(x, y) ==> (forall|nx: int, ny: int|
        pre.board().in_bounds(nx, ny) && #[trigger] is_neighbor(x, y, nx, ny)
            && pre.board().cell_at(nx, ny).state == CellState::Hidden ==> post.board().cell_at(
            nx,
            ny,
        ).state == CellState::Revealed) && post.spec_state() == (if post.cells_left() == 0 {
        GameState::Finished(true)
    } else if (exists|i: int|
        0 <= i < post.grid().len() && (#[trigger] post.grid()[i]).kind == CellKind::Mined
            && post.grid()[i].state != pre.grid()[i].state) {
        GameState::Finished(false)
    } else {
        GameState::Playing(false)
    }))
}

} // verus!
