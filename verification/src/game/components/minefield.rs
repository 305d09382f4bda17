pub mod minecell;

use vstd::prelude::*;
use vstd::arithmetic::div_mod::{lemma_fundamental_div_mod, lemma_fundamental_div_mod_converse};
use vstd::arithmetic::mul::lemma_mul_inequality;

pub use minecell::{CellKind, CellState};

use minecell::MineCell as CellInternal;

verus! {

broadcast use vstd::seq_lib::lemma_seq_contains_after_push;

/// Board parameters: grid width, grid height, and how many mines it holds.
#[derive(Clone, Copy)]
pub struct FieldOptions {
    pub cols: usize,
    pub rows: usize,
    pub mines: usize,
}

impl FieldOptions {
    /// A value clamped into a closed range.
    pub open spec fn clamp_spec(v: int, lo: int, hi: int) -> int {
        if v < lo {
            lo
        } else if v > hi {
            hi
        } else {
            v
        }
    }

    /// The options a board actually uses: dimensions in [9, 30], mines in
    /// [10, cols * rows - 1].
    pub open spec fn clamped(self) -> FieldOptions {
        let cols = Self::clamp_spec(self.cols as int, 9, 30);
        let rows = Self::clamp_spec(self.rows as int, 9, 30);
        let mines = Self::clamp_spec(self.mines as int, 10, cols * rows - 1);
        FieldOptions { cols: cols as usize, rows: rows as usize, mines: mines as usize }
    }

    /// Well-formed board parameters.
    pub open spec fn wf(self) -> bool {
        &&& 9 <= self.cols <= 30
        &&& 9 <= self.rows <= 30
        &&& 10 <= self.mines <= self.cols * self.rows - 1
    }

    /// The number of cells on the board.
    pub open spec fn size(self) -> int {
        self.cols * self.rows
    }
}

/// One when the condition holds, zero otherwise.
pub open spec fn b2i(b: bool) -> int {
    if b {
        1
    } else {
        0
    }
}

/// The flat-grid index of the cell at (x, y).
pub open spec fn gidx(o: FieldOptions, x: int, y: int) -> int {
    x + y * o.cols
}

pub open spec fn grid_in_bounds(o: FieldOptions, x: int, y: int) -> bool {
    0 <= x < o.cols && 0 <= y < o.rows
}

/// Two distinct positions that touch orthogonally or diagonally.
pub open spec fn is_neighbor(x1: int, y1: int, x2: int, y2: int) -> bool {
    &&& !(x1 == x2 && y1 == y2)
    &&& -1 <= x1 - x2 <= 1
    &&& -1 <= y1 - y2 <= 1
}

/// A grid sized to its options.
pub open spec fn grid_wf(g: Seq<CellInternal>, o: FieldOptions) -> bool {
    o.wf() && g.len() == o.size()
}

/// The cell at (x, y) is in bounds and holds a mine.
pub open spec fn grid_mined(g: Seq<CellInternal>, o: FieldOptions, x: int, y: int) -> bool {
    grid_in_bounds(o, x, y) && g[gidx(o, x, y)].kind == CellKind::Mined
}

/// The cell at (x, y) is in bounds and is flagged.
pub open spec fn grid_flagged(g: Seq<CellInternal>, o: FieldOptions, x: int, y: int) -> bool {
    grid_in_bounds(o, x, y) && g[gidx(o, x, y)].state == CellState::Flagged
}

/// How many of the up-to-eight neighbors of (x, y) hold a mine.
pub open spec fn grid_adj_count(g: Seq<CellInternal>, o: FieldOptions, x: int, y: int) -> int {
    b2i(grid_mined(g, o, x - 1, y - 1)) + b2i(grid_mined(g, o, x, y - 1)) + b2i(
        grid_mined(g, o, x + 1, y - 1),
    ) + b2i(grid_mined(g, o, x - 1, y)) + b2i(grid_mined(g, o, x + 1, y)) + b2i(
        grid_mined(g, o, x - 1, y + 1),
    ) + b2i(grid_mined(g, o, x, y + 1)) + b2i(grid_mined(g, o, x + 1, y + 1))
}

/// How many of the up-to-eight neighbors of (x, y) are flagged.
pub open spec fn grid_flag_count(g: Seq<CellInternal>, o: FieldOptions, x: int, y: int) -> int {
    b2i(grid_flagged(g, o, x - 1, y - 1)) + b2i(grid_flagged(g, o, x, y - 1)) + b2i(
        grid_flagged(g, o, x + 1, y - 1),
    ) + b2i(grid_flagged(g, o, x - 1, y)) + b2i(grid_flagged(g, o, x + 1, y)) + b2i(
        grid_flagged(g, o, x - 1, y + 1),
    ) + b2i(grid_flagged(g, o, x, y + 1)) + b2i(grid_flagged(g, o, x + 1, y + 1))
}

/// Mine-adjacency consistency: every non-mined cell's kind stores exactly
/// the number of its mined neighbors.
pub open spec fn grid_adj_consistent(g: Seq<CellInternal>, o: FieldOptions) -> bool {
    forall|x: int, y: int|
        grid_in_bounds(o, x, y) && !grid_mined(g, o, x, y) ==> g[gidx(o, x, y)].kind.as_int()
            == #[trigger] grid_adj_count(g, o, x, y)
}

pub open spec fn count_mined(g: Seq<CellInternal>) -> int
    decreases g.len(),
{
    if g.len() == 0 {
        0
    } else {
        count_mined(g.drop_last()) + b2i(g.last().kind == CellKind::Mined)
    }
}

pub open spec fn count_flagged(g: Seq<CellInternal>) -> int
    decreases g.len(),
{
    if g.len() == 0 {
        0
    } else {
        count_flagged(g.drop_last()) + b2i(g.last().state == CellState::Flagged)
    }
}

pub open spec fn count_hidden(g: Seq<CellInternal>) -> int
    decreases g.len(),
{
    if g.len() == 0 {
        0
    } else {
        count_hidden(g.drop_last()) + b2i(g.last().state == CellState::Hidden)
    }
}

/// How many non-mined cells are not yet revealed: the remaining-cells counter
/// tracks exactly this.
pub open spec fn count_safe_unrevealed(g: Seq<CellInternal>) -> int
    decreases g.len(),
{
    if g.len() == 0 {
        0
    } else {
        count_safe_unrevealed(g.drop_last()) + b2i(
            g.last().kind != CellKind::Mined && g.last().state != CellState::Revealed,
        )
    }
}

/// How many non-mined cells have been revealed: the number of successful
/// safe reveals since the board was (re)built.
pub open spec fn count_revealed_safe(g: Seq<CellInternal>) -> int
    decreases g.len(),
{
    if g.len() == 0 {
        0
    } else {
        count_revealed_safe(g.drop_last()) + b2i(
            g.last().kind != CellKind::Mined && g.last().state == CellState::Revealed,
        )
    }
}

/// Every cell is mined, safe-and-revealed, or safe-and-unrevealed.
pub proof fn lemma_safe_cell_partition(g: Seq<CellInternal>)
    ensures
        count_safe_unrevealed(g) + count_revealed_safe(g) + count_mined(g) == g.len(),
    decreases g.len(),
{
    if g.len() > 0 {
        lemma_safe_cell_partition(g.drop_last());
    }
}

pub proof fn lemma_count_mined_update(g: Seq<CellInternal>, i: int, c: CellInternal)
    requires
        0 <= i < g.len(),
    ensures
        count_mined(g.update(i, c)) == count_mined(g) - b2i(g[i].kind == CellKind::Mined) + b2i(
            c.kind == CellKind::Mined,
        ),
    decreases g.len(),
{
    let g2 = g.update(i, c);
    if i == g.len() - 1 {
        assert(g2.drop_last() =~= g.drop_last());
    } else {
        assert(g2.drop_last() =~= g.drop_last().update(i, c));
        lemma_count_mined_update(g.drop_last(), i, c);
    }
}

pub proof fn lemma_count_flagged_update(g: Seq<CellInternal>, i: int, c: CellInternal)
    requires
        0 <= i < g.len(),
    ensures
        count_flagged(g.update(i, c)) == count_flagged(g) - b2i(
            g[i].state == CellState::Flagged,
        ) + b2i(c.state == CellState::Flagged),
    decreases g.len(),
{
    let g2 = g.update(i, c);
    if i == g.len() - 1 {
        assert(g2.drop_last() =~= g.drop_last());
    } else {
        assert(g2.drop_last() =~= g.drop_last().update(i, c));
        lemma_count_flagged_update(g.drop_last(), i, c);
    }
}

pub proof fn lemma_count_hidden_update(g: Seq<CellInternal>, i: int, c: CellInternal)
    requires
        0 <= i < g.len(),
    ensures
        count_hidden(g.update(i, c)) == count_hidden(g) - b2i(g[i].state == CellState::Hidden)
            + b2i(c.state == CellState::Hidden),
    decreases g.len(),
{
    let g2 = g.update(i, c);
    if i == g.len() - 1 {
        assert(g2.drop_last() =~= g.drop_last());
    } else {
        assert(g2.drop_last() =~= g.drop_last().update(i, c));
        lemma_count_hidden_update(g.drop_last(), i, c);
    }
}

pub proof fn lemma_count_safe_unrevealed_update(g: Seq<CellInternal>, i: int, c: CellInternal)
    requires
        0 <= i < g.len(),
    ensures
        count_safe_unrevealed(g.update(i, c)) == count_safe_unrevealed(g) - b2i(
            g[i].kind != CellKind::Mined && g[i].state != CellState::Revealed,
        ) + b2i(c.kind != CellKind::Mined && c.state != CellState::Revealed),
    decreases g.len(),
{
    let g2 = g.update(i, c);
    if i == g.len() - 1 {
        assert(g2.drop_last() =~= g.drop_last());
    } else {
        assert(g2.drop_last() =~= g.drop_last().update(i, c));
        lemma_count_safe_unrevealed_update(g.drop_last(), i, c);
    }
}

pub proof fn lemma_count_bounds(g: Seq<CellInternal>)
    ensures
        0 <= count_mined(g) <= g.len(),
        0 <= count_flagged(g) <= g.len(),
        0 <= count_hidden(g) <= g.len(),
        0 <= count_safe_unrevealed(g) <= g.len(),
    decreases g.len(),
{
    if g.len() > 0 {
        lemma_count_bounds(g.drop_last());
    }
}

/// On a grid with no revealed cell, the non-mined unrevealed cells are
/// exactly the non-mined cells.
pub proof fn lemma_count_safe_unrevealed_none_revealed(g: Seq<CellInternal>)
    requires
        forall|i: int| 0 <= i < g.len() ==> (#[trigger] g[i]).state != CellState::Revealed,
    ensures
        count_safe_unrevealed(g) == g.len() - count_mined(g),
    decreases g.len(),
{
    if g.len() > 0 {
        lemma_count_safe_unrevealed_none_revealed(g.drop_last());
    }
}

pub proof fn lemma_gidx_bounds(o: FieldOptions, x: int, y: int)
    requires
        o.wf(),
        grid_in_bounds(o, x, y),
    ensures
        0 <= gidx(o, x, y) < o.size(),
{
    assert(x + y * o.cols < o.cols * o.rows) by (nonlinear_arith)
        requires
            0 <= x < o.cols,
            0 <= y < o.rows,
    ;
    assert(0 <= x + y * o.cols) by (nonlinear_arith)
        requires
            0 <= x,
            0 <= y,
            0 <= o.cols,
    ;
}

pub proof fn lemma_gidx_injective(o: FieldOptions, x1: int, y1: int, x2: int, y2: int)
    requires
        o.wf(),
        grid_in_bounds(o, x1, y1),
        grid_in_bounds(o, x2, y2),
        gidx(o, x1, y1) == gidx(o, x2, y2),
    ensures
        x1 == x2 && y1 == y2,
{
    assert(x1 == x2 && y1 == y2) by (nonlinear_arith)
        requires
            0 <= x1 < o.cols,
            0 <= x2 < o.cols,
            x1 + y1 * o.cols == x2 + y2 * o.cols,
    ;
}

/// Setting a mine at (px, py) raises the adjacency count of each of its
/// neighbors by one and changes no other cell's count.
pub proof fn lemma_mined_after_update(
    g: Seq<CellInternal>,
    o: FieldOptions,
    px: int,
    py: int,
    nx: int,
    ny: int,
)
    requires
        grid_wf(g, o),
        grid_in_bounds(o, px, py),
    ensures
        ({
            let g2 = g.update(
                gidx(o, px, py),
                CellInternal { kind: CellKind::Mined, state: g[gidx(o, px, py)].state },
            );
            grid_mined(g2, o, nx, ny) == (grid_mined(g, o, nx, ny) || (grid_in_bounds(o, nx, ny)
                && nx == px && ny == py))
        }),
{
    lemma_gidx_bounds(o, px, py);
    if grid_in_bounds(o, nx, ny) {
        lemma_gidx_bounds(o, nx, ny);
        if gidx(o, nx, ny) == gidx(o, px, py) {
            lemma_gidx_injective(o, nx, ny, px, py);
        }
    }
}

pub proof fn lemma_adj_count_after_mine(
    g: Seq<CellInternal>,
    o: FieldOptions,
    px: int,
    py: int,
    x: int,
    y: int,
)
    requires
        grid_wf(g, o),
        grid_in_bounds(o, px, py),
        !grid_mined(g, o, px, py),
    ensures
        ({
            let g2 = g.update(
                gidx(o, px, py),
                CellInternal { kind: CellKind::Mined, state: g[gidx(o, px, py)].state },
            );
            grid_adj_count(g2, o, x, y) == grid_adj_count(g, o, x, y) + b2i(
                is_neighbor(px, py, x, y),
            )
        }),
{
    lemma_mined_after_update(g, o, px, py, x - 1, y - 1);
    lemma_mined_after_update(g, o, px, py, x, y - 1);
    lemma_mined_after_update(g, o, px, py, x + 1, y - 1);
    lemma_mined_after_update(g, o, px, py, x - 1, y);
    lemma_mined_after_update(g, o, px, py, x + 1, y);
    lemma_mined_after_update(g, o, px, py, x - 1, y + 1);
    lemma_mined_after_update(g, o, px, py, x, y + 1);
    lemma_mined_after_update(g, o, px, py, x + 1, y + 1);
}

/// Adjacency counts depend only on where the mines are.
pub proof fn lemma_adj_count_same_mines(
    g1: Seq<CellInternal>,
    g2: Seq<CellInternal>,
    o: FieldOptions,
    x: int,
    y: int,
)
    requires
        g1.len() == g2.len(),
        forall|i: int|
            0 <= i < g1.len() ==> ((#[trigger] g1[i]).kind == CellKind::Mined <==> (
            #[trigger] g2[i]).kind == CellKind::Mined),
        grid_wf(g1, o),
    ensures
        grid_adj_count(g1, o, x, y) == grid_adj_count(g2, o, x, y),
{
    assert forall|nx: int, ny: int| #[trigger]
        grid_mined(g1, o, nx, ny) == grid_mined(g2, o, nx, ny) by {
        if grid_in_bounds(o, nx, ny) {
            lemma_gidx_bounds(o, nx, ny);
        }
    }
}

pub proof fn lemma_size_bounds(o: FieldOptions)
    requires
        o.wf(),
    ensures
        81 <= o.size() <= 900,
{
    assert(81 <= o.cols * o.rows <= 900) by (nonlinear_arith)
        requires
            9 <= o.cols <= 30,
            9 <= o.rows <= 30,
    ;
}

/// Counts over the mine layout agree on grids whose mines sit at the same
/// positions.
pub proof fn lemma_count_mined_pointwise(g1: Seq<CellInternal>, g2: Seq<CellInternal>)
    requires
        g1.len() == g2.len(),
        forall|i: int|
            0 <= i < g1.len() ==> ((#[trigger] g1[i]).kind == CellKind::Mined <==> (
            #[trigger] g2[i]).kind == CellKind::Mined),
    ensures
        count_mined(g1) == count_mined(g2),
    decreases g1.len(),
{
    if g1.len() > 0 {
        lemma_count_mined_pointwise(g1.drop_last(), g2.drop_last());
    }
}

/// Counts over the visibility states agree on grids whose states agree
/// pointwise.
pub proof fn lemma_count_states_pointwise(g1: Seq<CellInternal>, g2: Seq<CellInternal>)
    requires
        g1.len() == g2.len(),
        forall|i: int|
            0 <= i < g1.len() ==> (#[trigger] g1[i]).state == (#[trigger] g2[i]).state,
    ensures
        count_flagged(g1) == count_flagged(g2),
        count_hidden(g1) == count_hidden(g2),
    decreases g1.len(),
{
    if g1.len() > 0 {
        lemma_count_states_pointwise(g1.drop_last(), g2.drop_last());
    }
}

/// A grid of hidden zero cells has no mines and no flags.
pub proof fn lemma_count_clear(g: Seq<CellInternal>)
    requires
        forall|i: int| 0 <= i < g.len() ==> (#[trigger] g[i]) == CellInternal::default_spec(),
    ensures
        count_mined(g) == 0,
        count_flagged(g) == 0,
    decreases g.len(),
{
    if g.len() > 0 {
        lemma_count_clear(g.drop_last());
    }
}

/// A grid none of whose cells is mined has a mined count of zero.
pub proof fn lemma_count_mined_zero(g: Seq<CellInternal>)
    requires
        forall|i: int| 0 <= i < g.len() ==> (#[trigger] g[i]).kind != CellKind::Mined,
    ensures
        count_mined(g) == 0,
    decreases g.len(),
{
    if g.len() > 0 {
        lemma_count_mined_zero(g.drop_last());
    }
}

/// Where a raw draw lands once the protected first-click index is skipped:
/// draws at or above that index shift up by one.
pub open spec fn remap(init_index: int, raw: int) -> int {
    if raw >= init_index {
        raw + 1
    } else {
        raw
    }
}

/// Whether the flat index `i` is one of the drawn mine positions.
pub open spec fn picks_mined(picks: Seq<usize>, init_index: int, i: int) -> bool {
    exists|j: int| 0 <= j < picks.len() && remap(init_index, #[trigger] picks[j] as int) == i
}

/// Whether the flat index `i` belongs to one of the listed positions.
pub open spec fn coords_contain_index(cs: Seq<(usize, usize)>, o: FieldOptions, i: int) -> bool {
    exists|k: int|
        0 <= k < cs.len() && gidx(o, (#[trigger] cs[k]).0 as int, cs[k].1 as int) == i
}

/// No neighbor of a zero-adjacency cell holds a mine.
pub proof fn lemma_zero_cell_neighbor_unmined(
    g: Seq<CellInternal>,
    o: FieldOptions,
    cx: int,
    cy: int,
    nx: int,
    ny: int,
)
    requires
        grid_wf(g, o),
        grid_in_bounds(o, cx, cy),
        grid_in_bounds(o, nx, ny),
        is_neighbor(cx, cy, nx, ny),
        grid_adj_count(g, o, cx, cy) == 0,
    ensures
        !grid_mined(g, o, nx, ny),
{
    if nx == cx - 1 && ny == cy - 1 {
        assert(b2i(grid_mined(g, o, cx - 1, cy - 1)) == 0);
    } else if nx == cx && ny == cy - 1 {
        assert(b2i(grid_mined(g, o, cx, cy - 1)) == 0);
    } else if nx == cx + 1 && ny == cy - 1 {
        assert(b2i(grid_mined(g, o, cx + 1, cy - 1)) == 0);
    } else if nx == cx - 1 && ny == cy {
        assert(b2i(grid_mined(g, o, cx - 1, cy)) == 0);
    } else if nx == cx + 1 && ny == cy {
        assert(b2i(grid_mined(g, o, cx + 1, cy)) == 0);
    } else if nx == cx - 1 && ny == cy + 1 {
        assert(b2i(grid_mined(g, o, cx - 1, cy + 1)) == 0);
    } else if nx == cx && ny == cy + 1 {
        assert(b2i(grid_mined(g, o, cx, cy + 1)) == 0);
    } else {
        assert(nx == cx + 1 && ny == cy + 1);
        assert(b2i(grid_mined(g, o, cx + 1, cy + 1)) == 0);
    }
}

/// While adjacency counts are being bumped around a fresh mine, the next
/// listed neighbor is still untouched, its stored count is still the old
/// grid's, and that count is at most seven (the fresh mine was not yet
/// counted anywhere).
#[verifier::rlimit(100)]
proof fn lemma_untouched_neighbor(
    g_prev: Seq<CellInternal>,
    g_mid: Seq<CellInternal>,
    g_before: Seq<CellInternal>,
    o: FieldOptions,
    around_seq: Seq<(usize, usize)>,
    t: int,
    px: int,
    py: int,
    index: int,
)
    requires
        o.wf(),
        g_prev.len() == o.size(),
        g_mid.len() == o.size(),
        g_before.len() == o.size(),
        grid_in_bounds(o, px, py),
        0 <= index && index < o.size(),
        index == gidx(o, px, py),
        g_prev[index].kind != CellKind::Mined,
        grid_adj_consistent(g_prev, o),
        g_mid == g_prev.update(
            index,
            CellInternal { kind: CellKind::Mined, state: g_prev[index].state },
        ),
        0 <= t < around_seq.len(),
        forall|kk: int|
            0 <= kk < around_seq.len() ==> grid_in_bounds(
                o,
                (#[trigger] around_seq[kk]).0 as int,
                around_seq[kk].1 as int,
            ) && is_neighbor(px, py, around_seq[kk].0 as int, around_seq[kk].1 as int),
        forall|k1: int, k2: int| 0 <= k1 < k2 < around_seq.len() ==> around_seq[k1] != around_seq[k2],
        forall|i: int|
            0 <= i < g_before.len() && !coords_contain_index(around_seq.take(t), o, i) ==> (
            #[trigger] g_before[i]).kind == g_mid[i].kind,
    ensures
        ({
            let ii = gidx(o, around_seq[t].0 as int, around_seq[t].1 as int);
            &&& 0 <= ii && ii < o.size()
            &&& !coords_contain_index(around_seq.take(t), o, ii)
            &&& ii != index
            &&& g_before[ii].kind == g_mid[ii].kind
            &&& g_mid[ii].kind == g_prev[ii].kind
            &&& (g_before[ii].kind != CellKind::Mined ==> g_before[ii].kind.as_int() <= 7)
        }),
{
    let nx = around_seq[t].0 as int;
    let ny = around_seq[t].1 as int;
    let ii = gidx(o, nx, ny);
    lemma_gidx_bounds(o, nx, ny);
    if coords_contain_index(around_seq.take(t), o, ii) {
        let kk = choose|kk: int|
            0 <= kk < around_seq.take(t).len() && gidx(
                o,
                (#[trigger] around_seq.take(t)[kk]).0 as int,
                around_seq.take(t)[kk].1 as int,
            ) == ii;
        lemma_gidx_injective(o, around_seq[kk].0 as int, around_seq[kk].1 as int, nx, ny);
        assert(around_seq[kk] == around_seq[t]);
        assert(false);
    }
    if ii == index {
        lemma_gidx_injective(o, nx, ny, px, py);
        assert(false);
    }
    if g_before[ii].kind != CellKind::Mined {
        assert(g_prev[ii].kind.as_int() == grid_adj_count(g_prev, o, nx, ny));
        assert(!grid_mined(g_prev, o, px, py));
        assert(grid_adj_count(g_prev, o, nx, ny) <= 7) by {
            assert(is_neighbor(px, py, nx, ny));
            assert(b2i(grid_mined(g_prev, o, px, py)) == 0);
            if px == nx - 1 && py == ny - 1 {
                assert(b2i(grid_mined(g_prev, o, nx - 1, ny - 1)) == 0);
            } else if px == nx && py == ny - 1 {
                assert(b2i(grid_mined(g_prev, o, nx, ny - 1)) == 0);
            } else if px == nx + 1 && py == ny - 1 {
                assert(b2i(grid_mined(g_prev, o, nx + 1, ny - 1)) == 0);
            } else if px == nx - 1 && py == ny {
                assert(b2i(grid_mined(g_prev, o, nx - 1, ny)) == 0);
            } else if px == nx + 1 && py == ny {
                assert(b2i(grid_mined(g_prev, o, nx + 1, ny)) == 0);
            } else if px == nx - 1 && py == ny + 1 {
                assert(b2i(grid_mined(g_prev, o, nx - 1, ny + 1)) == 0);
            } else if px == nx && py == ny + 1 {
                assert(b2i(grid_mined(g_prev, o, nx, ny + 1)) == 0);
            } else {
                assert(px == nx + 1 && py == ny + 1);
                assert(b2i(grid_mined(g_prev, o, nx + 1, ny + 1)) == 0);
            }
        }
    }
}

/// Bumping the next listed neighbor's count keeps the bookkeeping of the
/// bump loop: earlier neighbors stay bumped once, later cells stay
/// untouched, and no state or mine moves.
proof fn lemma_bump_maintains(
    g_mid: Seq<CellInternal>,
    g_before: Seq<CellInternal>,
    g_now: Seq<CellInternal>,
    o: FieldOptions,
    around_seq: Seq<(usize, usize)>,
    t: int,
    c2: CellInternal,
)
    requires
        o.wf(),
        g_mid.len() == o.size(),
        g_before.len() == o.size(),
        0 <= t < around_seq.len(),
        forall|kk: int|
            0 <= kk < around_seq.len() ==> grid_in_bounds(
                o,
                (#[trigger] around_seq[kk]).0 as int,
                around_seq[kk].1 as int,
            ),
        forall|k1: int, k2: int| 0 <= k1 < k2 < around_seq.len() ==> around_seq[k1] != around_seq[k2],
        forall|i: int|
            0 <= i < g_before.len() && !coords_contain_index(around_seq.take(t), o, i) ==> (
            #[trigger] g_before[i]).kind == g_mid[i].kind,
        forall|kk: int|
            0 <= kk < t ==> ({
                let ii2 = gidx(o, (#[trigger] around_seq[kk]).0 as int, around_seq[kk].1 as int);
                &&& (g_mid[ii2].kind != CellKind::Mined ==> g_before[ii2].kind.as_int() == g_mid[
                    ii2
                ].kind.as_int() + 1 && g_before[ii2].kind != CellKind::Mined)
                &&& (g_mid[ii2].kind == CellKind::Mined ==> g_before[ii2].kind == g_mid[ii2].kind)
            }),
        ({
            let ii = gidx(o, around_seq[t].0 as int, around_seq[t].1 as int);
            &&& 0 <= ii && ii < o.size()
            &&& g_now == g_before.update(ii, c2)
            &&& c2.state == g_before[ii].state
            &&& (c2.kind == CellKind::Mined <==> g_before[ii].kind == CellKind::Mined)
            &&& (g_mid[ii].kind != CellKind::Mined ==> g_before[ii].kind == g_mid[ii].kind
                && c2.kind.as_int() == g_before[ii].kind.as_int() + 1 && c2.kind
                != CellKind::Mined)
            &&& (g_mid[ii].kind == CellKind::Mined ==> c2.kind == g_before[ii].kind)
        }),
    ensures
        g_now.len() == o.size(),
        forall|i: int|
            0 <= i < g_now.len() ==> (#[trigger] g_now[i]).state == g_before[i].state,
        forall|i: int|
            0 <= i < g_now.len() ==> ((#[trigger] g_now[i]).kind == CellKind::Mined <==> g_before[
                i
            ].kind == CellKind::Mined),
        forall|i: int|
            0 <= i < g_now.len() && !coords_contain_index(around_seq.take(t + 1), o, i) ==> (
            #[trigger] g_now[i]).kind == g_mid[i].kind,
        forall|kk: int|
            0 <= kk < t + 1 ==> ({
                let ii2 = gidx(o, (#[trigger] around_seq[kk]).0 as int, around_seq[kk].1 as int);
                &&& (g_mid[ii2].kind != CellKind::Mined ==> g_now[ii2].kind.as_int() == g_mid[
                    ii2
                ].kind.as_int() + 1 && g_now[ii2].kind != CellKind::Mined)
                &&& (g_mid[ii2].kind == CellKind::Mined ==> g_now[ii2].kind == g_mid[ii2].kind)
            }),
{
    let ii = gidx(o, around_seq[t].0 as int, around_seq[t].1 as int);
    assert(around_seq.take(t + 1).drop_last() =~= around_seq.take(t));
    assert(around_seq.take(t + 1)[t] == around_seq[t]);
    assert forall|i: int|
        0 <= i < g_now.len() && !coords_contain_index(around_seq.take(t + 1), o, i) implies (
    #[trigger] g_now[i]).kind == g_mid[i].kind by {
        assert(i != ii);
        if coords_contain_index(around_seq.take(t), o, i) {
            let kk = choose|kk: int|
                0 <= kk < around_seq.take(t).len() && gidx(
                    o,
                    (#[trigger] around_seq.take(t)[kk]).0 as int,
                    around_seq.take(t)[kk].1 as int,
                ) == i;
            assert(gidx(
                o,
                around_seq.take(t + 1)[kk].0 as int,
                around_seq.take(t + 1)[kk].1 as int,
            ) == i);
            assert(false);
        }
    }
    assert forall|kk: int| 0 <= kk < t + 1 implies ({
        let ii2 = gidx(o, (#[trigger] around_seq[kk]).0 as int, around_seq[kk].1 as int);
        &&& (g_mid[ii2].kind != CellKind::Mined ==> g_now[ii2].kind.as_int() == g_mid[
            ii2
        ].kind.as_int() + 1 && g_now[ii2].kind != CellKind::Mined)
        &&& (g_mid[ii2].kind == CellKind::Mined ==> g_now[ii2].kind == g_mid[ii2].kind)
    }) by {
        let ii2 = gidx(o, around_seq[kk].0 as int, around_seq[kk].1 as int);
        lemma_gidx_bounds(o, around_seq[kk].0 as int, around_seq[kk].1 as int);
        if kk < t {
            if ii2 == ii {
                lemma_gidx_injective(
                    o,
                    around_seq[kk].0 as int,
                    around_seq[kk].1 as int,
                    around_seq[t].0 as int,
                    around_seq[t].1 as int,
                );
                assert(around_seq[kk] == around_seq[t]);
                assert(false);
            }
            assert(g_now[ii2] == g_before[ii2]);
        } else {
            assert(ii2 == ii);
            assert(g_now[ii2] == c2);
        }
    }
}

/// One cell handed out by the board: the cell's value plus its coordinates.
pub struct MineCell {
    cell: CellInternal,
    x: usize,
    y: usize,
}

impl MineCell {
    pub closed spec fn spec_cell(self) -> CellInternal {
        self.cell
    }

    pub closed spec fn spec_x(self) -> usize {
        self.x
    }

    pub closed spec fn spec_y(self) -> usize {
        self.y
    }

    pub open spec fn spec_kind(self) -> CellKind {
        self.spec_cell().kind
    }

    pub open spec fn spec_state(self) -> CellState {
        self.spec_cell().state
    }

    pub fn kind(&self) -> (r: CellKind)
        ensures
            r == self.spec_kind(),
    {
        self.cell.kind
    }

    pub fn state(&self) -> (r: CellState)
        ensures
            r == self.spec_state(),
    {
        self.cell.state
    }

    pub fn x(&self) -> (r: usize)
        ensures
            r == self.spec_x(),
    {
        self.x
    }

    pub fn y(&self) -> (r: usize)
        ensures
            r == self.spec_y(),
    {
        self.y
    }

    pub fn is_mined(&self) -> (r: bool)
        ensures
            r == (self.spec_kind() == CellKind::Mined),
    {
        self.cell.kind == CellKind::Mined
    }

    pub fn is_hidden(&self) -> (r: bool)
        ensures
            r == (self.spec_state() == CellState::Hidden),
    {
        self.cell.state == CellState::Hidden
    }

    pub fn is_flagged(&self) -> (r: bool)
        ensures
            r == (self.spec_state() == CellState::Flagged),
    {
        self.cell.state == CellState::Flagged
    }

    /// Changes only the visibility state; the kind and position are kept.
    pub fn set_state(&mut self, state: CellState)
        ensures
            final(self).spec_cell() == (CellInternal {
                kind: old(self).spec_cell().kind,
                state,
            }),
            final(self).spec_x() == old(self).spec_x(),
            final(self).spec_y() == old(self).spec_y(),
    {
        self.cell.state = state;
    }
}

/// The board: a flat grid of cells, its clamped options, and whether the
/// one-time mine placement has happened.
pub struct MineField {
    options: FieldOptions,
    cells: Vec<CellInternal>,
    mines_placed: bool,
}

impl MineField {
    pub closed spec fn grid(self) -> Seq<CellInternal> {
        self.cells@
    }

    pub closed spec fn spec_options(self) -> FieldOptions {
        self.options
    }

    pub closed spec fn spec_mines_placed(self) -> bool {
        self.mines_placed
    }

    pub open spec fn wf(self) -> bool {
        grid_wf(self.grid(), self.spec_options())
    }

    pub open spec fn in_bounds(self, x: int, y: int) -> bool {
        grid_in_bounds(self.spec_options(), x, y)
    }

    pub open spec fn cell_at(self, x: int, y: int) -> CellInternal {
        self.grid()[gidx(self.spec_options(), x, y)]
    }

    pub open spec fn mined_at(self, x: int, y: int) -> bool {
        grid_mined(self.grid(), self.spec_options(), x, y)
    }

    pub open spec fn adj_count(self, x: int, y: int) -> int {
        grid_adj_count(self.grid(), self.spec_options(), x, y)
    }

    pub open spec fn flag_count(self, x: int, y: int) -> int {
        grid_flag_count(self.grid(), self.spec_options(), x, y)
    }

    pub open spec fn adj_consistent(self) -> bool {
        grid_adj_consistent(self.grid(), self.spec_options())
    }

    /// Every cell's kind is the zero count: the board carries no mines and
    /// no adjacency information yet.
    pub open spec fn kinds_clear(self) -> bool {
        forall|i: int|
            0 <= i < self.grid().len() ==> (#[trigger] self.grid()[i]).kind == CellKind::Num0
    }

    pub open spec fn all_hidden(self) -> bool {
        forall|i: int|
            0 <= i < self.grid().len() ==> (#[trigger] self.grid()[i]).state == CellState::Hidden
    }

    pub open spec fn none_revealed(self) -> bool {
        forall|i: int|
            0 <= i < self.grid().len() ==> (#[trigger] self.grid()[i]).state != CellState::Revealed
    }

    /// Builds a board from raw options: the options are clamped, every cell
    /// starts as a hidden zero cell, and no mines are placed yet.
    pub fn new(options: FieldOptions) -> (r: Self)
        ensures
            r.wf(),
            r.spec_options() == options.clamped(),
            !r.spec_mines_placed(),
            r.kinds_clear(),
            r.all_hidden(),
            count_mined(r.grid()) == 0,
            count_flagged(r.grid()) == 0,
    {
        let cols = if options.cols < 9 {
            9
        } else if options.cols > 30 {
            30
        } else {
            options.cols
        };
        let rows = if options.rows < 9 {
            9
        } else if options.rows > 30 {
            30
        } else {
            options.rows
        };
        proof {
            assert(81 <= cols * rows <= 900) by (nonlinear_arith)
                requires
                    9 <= cols <= 30,
                    9 <= rows <= 30,
            ;
        }
        let cap = cols * rows - 1;
        let mines = if options.mines < 10 {
            10
        } else if options.mines > cap {
            cap
        } else {
            options.mines
        };
        let opts = FieldOptions { cols, rows, mines };
        let total = cols * rows;
        let mut cells: Vec<CellInternal> = Vec::new();
        while cells.len() < total
            invariant
                cells@.len() <= total,
                forall|i: int|
                    0 <= i < cells@.len() ==> (#[trigger] cells@[i]) == CellInternal::default_spec(),
            decreases total - cells@.len(),
        {
            cells.push(CellInternal::default());
        }
        proof {
            lemma_count_clear(cells@);
        }
        MineField { options: opts, cells, mines_placed: false }
    }

    pub fn options(&self) -> (r: FieldOptions)
        ensures
            r == self.spec_options(),
    {
        self.options
    }

    pub fn mines_placed(&self) -> (r: bool)
        ensures
            r == self.spec_mines_placed(),
    {
        self.mines_placed
    }

    /// The flat index of an in-bounds position.
    fn flat_index(&self, x: usize, y: usize) -> (i: usize)
        requires
            self.wf(),
            self.in_bounds(x as int, y as int),
        ensures
            i as int == gidx(self.spec_options(), x as int, y as int),
            i < self.grid().len(),
    {
        proof {
            lemma_gidx_bounds(self.spec_options(), x as int, y as int);
            lemma_size_bounds(self.spec_options());
        }
        x + y * self.options.cols
    }

    /// The cell at an already-validated position: callers must only pass
    /// coordinates produced by the board's own coordinate generators or
    /// otherwise known to be in bounds.
    pub fn get_cell_unchecked(&self, x: usize, y: usize) -> (r: MineCell)
        requires
            self.wf(),
            self.in_bounds(x as int, y as int),
        ensures
            r.spec_cell() == self.cell_at(x as int, y as int),
            r.spec_x() == x,
            r.spec_y() == y,
    {
        let i = self.flat_index(x, y);
        let cell = self.cells[i];
        MineCell { cell, x, y }
    }

    /// The cell at a position, or nothing when the position is off the board.
    pub fn get_cell(&self, x: usize, y: usize) -> (r: Option<MineCell>)
        requires
            self.wf(),
        ensures
            r is Some <==> self.in_bounds(x as int, y as int),
            r is Some ==> r->0.spec_cell() == self.cell_at(x as int, y as int) && r->0.spec_x() == x
                && r->0.spec_y() == y,
    {
        if x < self.options.cols && y < self.options.rows {
            Some(self.get_cell_unchecked(x, y))
        } else {
            None
        }
    }

    /// Writes back a cell's visibility state; the kind at the position is
    /// untouched, and so is every other cell.
    pub fn set_cell(&mut self, cell: &MineCell)
        requires
            old(self).wf(),
            old(self).in_bounds(cell.spec_x() as int, cell.spec_y() as int),
        ensures
            final(self).wf(),
            final(self).spec_options() == old(self).spec_options(),
            final(self).spec_mines_placed() == old(self).spec_mines_placed(),
            0 <= gidx(old(self).spec_options(), cell.spec_x() as int, cell.spec_y() as int)
                && gidx(old(self).spec_options(), cell.spec_x() as int, cell.spec_y() as int)
                < final(self).grid().len(),
            final(self).grid() == old(self).grid().update(
                gidx(old(self).spec_options(), cell.spec_x() as int, cell.spec_y() as int),
                CellInternal {
                    kind: old(self).cell_at(cell.spec_x() as int, cell.spec_y() as int).kind,
                    state: cell.spec_state(),
                },
            ),
            forall|x: int, y: int| #[trigger]
                final(self).mined_at(x, y) == old(self).mined_at(x, y),
            forall|x: int, y: int| #[trigger]
                final(self).adj_count(x, y) == old(self).adj_count(x, y),
            old(self).adj_consistent() ==> final(self).adj_consistent(),
            count_mined(final(self).grid()) == count_mined(old(self).grid()),
            count_flagged(final(self).grid()) == count_flagged(old(self).grid()) - b2i(
                old(self).cell_at(cell.spec_x() as int, cell.spec_y() as int).state
                    == CellState::Flagged,
            ) + b2i(cell.spec_state() == CellState::Flagged),
            count_hidden(final(self).grid()) == count_hidden(old(self).grid()) - b2i(
                old(self).cell_at(cell.spec_x() as int, cell.spec_y() as int).state
                    == CellState::Hidden,
            ) + b2i(cell.spec_state() == CellState::Hidden),
            count_safe_unrevealed(final(self).grid()) == count_safe_unrevealed(old(self).grid())
                - b2i(
                old(self).cell_at(cell.spec_x() as int, cell.spec_y() as int).kind
                    != CellKind::Mined && old(self).cell_at(
                    cell.spec_x() as int,
                    cell.spec_y() as int,
                ).state != CellState::Revealed,
            ) + b2i(
                old(self).cell_at(cell.spec_x() as int, cell.spec_y() as int).kind
                    != CellKind::Mined && cell.spec_state() != CellState::Revealed,
            ),
    {
        let i = self.flat_index(cell.x, cell.y);
        let mut c = self.cells[i];
        let ghost g0 = self.cells@;
        let ghost o = self.options;
        let ghost ii = i as int;
        c.state = cell.cell.state;
        self.cells.set(i, c);
        proof {
            lemma_count_mined_update(g0, ii, c);
            lemma_count_flagged_update(g0, ii, c);
            lemma_count_hidden_update(g0, ii, c);
            lemma_count_safe_unrevealed_update(g0, ii, c);
            let g1 = self.cells@;
            assert forall|x: int, y: int| #[trigger]
                grid_mined(g1, o, x, y) == grid_mined(g0, o, x, y) by {
                if grid_in_bounds(o, x, y) {
                    lemma_gidx_bounds(o, x, y);
                }
            }
            assert forall|x: int, y: int| #[trigger]
                grid_adj_count(g1, o, x, y) == grid_adj_count(g0, o, x, y) by {
                lemma_adj_count_same_mines(g0, g1, o, x, y);
            }
            if grid_adj_consistent(g0, o) {
                assert forall|x: int, y: int|
                    grid_in_bounds(o, x, y) && !#[trigger] grid_mined(g1, o, x, y) implies g1[
                    gidx(o, x, y)
                ].kind.as_int() == grid_adj_count(g1, o, x, y) by {
                    lemma_gidx_bounds(o, x, y);
                    lemma_adj_count_same_mines(g0, g1, o, x, y);
                }
            }
        }
    }

    /// Every position of the board, column by column: entry `k` is
    /// `(k / rows, k % rows)`.
    pub fn get_coords_all(&self) -> (r: Vec<(usize, usize)>)
        requires
            self.wf(),
        ensures
            r@.len() == self.spec_options().size(),
            forall|k: int|
                0 <= k < r@.len() ==> (#[trigger] r@[k]).0 as int == k / (
                self.spec_options().rows as int) && r@[k].1 as int == k % (
                self.spec_options().rows as int),
            forall|k: int|
                0 <= k < r@.len() ==> self.in_bounds((#[trigger] r@[k]).0 as int, r@[k].1 as int),
    {
        let cols = self.options.cols;
        let rows = self.options.rows;
        let mut r: Vec<(usize, usize)> = Vec::new();
        let mut x: usize = 0;
        while x < cols
            invariant
                9 <= cols <= 30,
                9 <= rows <= 30,
                cols == self.spec_options().cols,
                rows == self.spec_options().rows,
                x <= cols,
                r@.len() == x * rows,
                forall|k: int|
                    0 <= k < r@.len() ==> (#[trigger] r@[k]).0 as int == k / (rows as int)
                        && r@[k].1 as int == k % (rows as int) && r@[k].0 < cols && r@[k].1 < rows,
            decreases cols - x,
        {
            let mut y: usize = 0;
            while y < rows
                invariant
                    9 <= cols <= 30,
                    9 <= rows <= 30,
                    x < cols,
                    y <= rows,
                    r@.len() == x * rows + y,
                    forall|k: int|
                        0 <= k < r@.len() ==> (#[trigger] r@[k]).0 as int == k / (rows as int)
                            && r@[k].1 as int == k % (rows as int) && r@[k].0 < cols && r@[k].1
                            < rows,
                decreases rows - y,
            {
                r.push((x, y));
                proof {
                    lemma_fundamental_div_mod_converse(
                        (x * rows + y) as int,
                        rows as int,
                        x as int,
                        y as int,
                    );
                }
                y = y + 1;
            }
            proof {
                assert((x + 1) * rows == x * rows + rows) by (nonlinear_arith);
            }
            x = x + 1;
        }
        r
    }

    /// The up-to-eight neighbors of an in-bounds position, clipped to the
    /// board, in a fixed order; the position itself is not included.
    pub fn get_coords_around(&self, x: usize, y: usize) -> (r: Vec<(usize, usize)>)
        requires
            self.wf(),
            self.in_bounds(x as int, y as int),
        ensures
            r@.len() <= 8,
            forall|k: int|
                0 <= k < r@.len() ==> self.in_bounds((#[trigger] r@[k]).0 as int, r@[k].1 as int)
                    && is_neighbor(x as int, y as int, r@[k].0 as int, r@[k].1 as int),
            forall|k1: int, k2: int| 0 <= k1 < k2 < r@.len() ==> r@[k1] != r@[k2],
            forall|nx: int, ny: int|
                self.in_bounds(nx, ny) && #[trigger] is_neighbor(x as int, y as int, nx, ny)
                    ==> r@.contains((nx as usize, ny as usize)),
    {
        let cols = self.options.cols;
        let rows = self.options.rows;
        let mut r: Vec<(usize, usize)> = Vec::new();
        if x > 0 && y > 0 {
            r.push((x - 1, y - 1));
        }
        if y > 0 {
            r.push((x, y - 1));
        }
        if x + 1 < cols && y > 0 {
            r.push((x + 1, y - 1));
        }
        if x > 0 {
            r.push((x - 1, y));
        }
        if x + 1 < cols {
            r.push((x + 1, y));
        }
        if x > 0 && y + 1 < rows {
            r.push((x - 1, y + 1));
        }
        if y + 1 < rows {
            r.push((x, y + 1));
        }
        if x + 1 < cols && y + 1 < rows {
            r.push((x + 1, y + 1));
        }
        r
    }

    /// Whether the in-bounds position holds a flagged cell.
    fn flagged_at(&self, x: usize, y: usize) -> (r: bool)
        requires
            self.wf(),
            self.in_bounds(x as int, y as int),
        ensures
            r == grid_flagged(self.grid(), self.spec_options(), x as int, y as int),
    {
        let i = self.flat_index(x, y);
        self.cells[i].state == CellState::Flagged
    }

    /// How many neighbors of the position are flagged.
    pub fn count_flags_around(&self, x: usize, y: usize) -> (r: u8)
        requires
            self.wf(),
            self.in_bounds(x as int, y as int),
        ensures
            r as int == self.flag_count(x as int, y as int),
    {
        let cols = self.options.cols;
        let rows = self.options.rows;
        let mut n: u8 = 0;
        if x > 0 && y > 0 && self.flagged_at(x - 1, y - 1) {
            n = n + 1;
        }
        if y > 0 && self.flagged_at(x, y - 1) {
            n = n + 1;
        }
        if x + 1 < cols && y > 0 && self.flagged_at(x + 1, y - 1) {
            n = n + 1;
        }
        if x > 0 && self.flagged_at(x - 1, y) {
            n = n + 1;
        }
        if x + 1 < cols && self.flagged_at(x + 1, y) {
            n = n + 1;
        }
        if x > 0 && y + 1 < rows && self.flagged_at(x - 1, y + 1) {
            n = n + 1;
        }
        if y + 1 < rows && self.flagged_at(x, y + 1) {
            n = n + 1;
        }
        if x + 1 < cols && y + 1 < rows && self.flagged_at(x + 1, y + 1) {
            n = n + 1;
        }
        n
    }

    /// Clears every cell back to a hidden zero cell and forgets the mine
    /// placement; the options are kept.
    pub fn reset(&mut self)
        requires
            old(self).wf(),
        ensures
            final(self).wf(),
            final(self).spec_options() == old(self).spec_options(),
            !final(self).spec_mines_placed(),
            final(self).kinds_clear(),
            final(self).all_hidden(),
            count_mined(final(self).grid()) == 0,
            count_flagged(final(self).grid()) == 0,
    {
        let n = self.cells.len();
        let mut i: usize = 0;
        while i < n
            invariant
                i <= n,
                n == self.grid().len(),
                self.spec_options() == old(self).spec_options(),
                self.grid().len() == old(self).grid().len(),
                forall|j: int|
                    0 <= j < i ==> (#[trigger] self.grid()[j]) == CellInternal::default_spec(),
            decreases n - i,
        {
            self.cells.set(i, CellInternal::default());
            i = i + 1;
        }
        self.mines_placed = false;
        proof {
            lemma_count_clear(self.cells@);
        }
    }

    /// Places the board's mines at the positions drawn in `picks`: each raw
    /// draw is taken from the board minus one cell and remapped to skip the
    /// protected position (init_x, init_y), so the first-clicked cell is
    /// never mined. Every non-mined cell ends up storing exactly its count
    /// of mined neighbors, and no cell's visibility state changes.
    #[verifier::rlimit(100)]
    pub fn place_mines_at(&mut self, picks: &Vec<usize>, init_x: usize, init_y: usize)
        requires
            old(self).wf(),
            !old(self).spec_mines_placed(),
            old(self).kinds_clear(),
            old(self).in_bounds(init_x as int, init_y as int),
            picks@.len() == old(self).spec_options().mines,
            forall|j: int|
                0 <= j < picks@.len() ==> (#[trigger] picks@[j]) < old(self).spec_options().size()
                    - 1,
            forall|j1: int, j2: int| 0 <= j1 < j2 < picks@.len() ==> picks@[j1] != picks@[j2],
        ensures
            final(self).wf(),
            final(self).spec_options() == old(self).spec_options(),
            final(self).spec_mines_placed(),
            final(self).adj_consistent(),
            !final(self).mined_at(init_x as int, init_y as int),
            final(self).grid().len() == old(self).grid().len(),
            forall|i: int|
                0 <= i < final(self).grid().len() ==> (#[trigger] final(self).grid()[i]).state
                    == old(self).grid()[i].state,
            count_mined(final(self).grid()) == final(self).spec_options().mines,
            forall|i: int|
                0 <= i < final(self).grid().len() ==> ((#[trigger] final(self).grid()[i]).kind
                    == CellKind::Mined <==> picks_mined(
                    picks@,
                    gidx(final(self).spec_options(), init_x as int, init_y as int),
                    i,
                )),
    {
        let ghost g_init = self.cells@;
        let ghost o = self.options;
        let init_index = self.flat_index(init_x, init_y);
        proof {
            lemma_size_bounds(o);
            assert(picks@.take(0) =~= Seq::<usize>::empty());
            assert forall|a: int, b: int| !#[trigger] grid_mined(g_init, o, a, b) by {
                if grid_in_bounds(o, a, b) {
                    lemma_gidx_bounds(o, a, b);
                }
            }
            assert forall|x: int, y: int|
                grid_in_bounds(o, x, y) && !#[trigger] grid_mined(g_init, o, x, y) implies g_init[
                gidx(o, x, y)
            ].kind.as_int() == grid_adj_count(g_init, o, x, y) by {
                lemma_gidx_bounds(o, x, y);
            }
            lemma_count_mined_zero(g_init);
        }
        let mut k: usize = 0;
        while k < picks.len()
            invariant
                k <= picks@.len(),
                self.wf(),
                o.wf(),
                self.spec_options() == o,
                !self.spec_mines_placed(),
                self.grid().len() == g_init.len(),
                g_init.len() == o.size(),
                grid_in_bounds(o, init_x as int, init_y as int),
                init_index as int == gidx(o, init_x as int, init_y as int),
                0 <= init_index as int && (init_index as int) < o.size(),
                picks@.len() == o.mines,
                forall|j: int| 0 <= j < picks@.len() ==> (#[trigger] picks@[j]) < o.size() - 1,
                forall|j1: int, j2: int| 0 <= j1 < j2 < picks@.len() ==> picks@[j1] != picks@[j2],
                forall|i: int|
                    0 <= i < self.grid().len() ==> (#[trigger] self.grid()[i]).state
                        == g_init[i].state,
                forall|i: int|
                    0 <= i < self.grid().len() ==> ((#[trigger] self.grid()[i]).kind
                        == CellKind::Mined <==> picks_mined(
                        picks@.take(k as int),
                        init_index as int,
                        i,
                    )),
                self.adj_consistent(),
                count_mined(self.grid()) == k,
            decreases picks@.len() - k,
        {
            proof {
                lemma_size_bounds(o);
            }
            let raw = picks[k];
            let index = if raw >= init_index {
                raw + 1
            } else {
                raw
            };
            proof {
                lemma_size_bounds(o);
                assert(index as int == remap(init_index as int, raw as int));
                assert((index as int) < o.size());
            }
            let px = index % self.options.cols;
            let py = index / self.options.cols;
            proof {
                lemma_fundamental_div_mod(index as int, o.cols as int);
                assert(index as int == o.cols * (py as int) + (px as int));
                assert((py as int) * o.cols == o.cols * (py as int)) by (nonlinear_arith);
                if (py as int) >= o.rows {
                    lemma_mul_inequality(o.rows as int, py as int, o.cols as int);
                    assert(o.rows * o.cols <= (py as int) * o.cols);
                    assert((py as int) * o.cols == o.cols * (py as int)) by (nonlinear_arith);
                    assert(o.rows * o.cols == o.size()) by (nonlinear_arith);
                    assert((index as int) >= o.size());
                    assert(false);
                }
                assert(grid_in_bounds(o, px as int, py as int));
                assert(gidx(o, px as int, py as int) == index as int);
                lemma_gidx_bounds(o, px as int, py as int);
            }
            let ghost g_prev = self.cells@;
            let mut c = self.cells[index];
            proof {
                if picks_mined(picks@.take(k as int), init_index as int, index as int) {
                    let j = choose|j: int|
                        0 <= j < picks@.take(k as int).len() && remap(
                            init_index as int,
                            picks@.take(k as int)[j] as int,
                        ) == index as int;
                    assert(picks@[j] != picks@[k as int]);
                    assert(false);
                }
                assert(c.kind != CellKind::Mined);
            }
            c.kind = CellKind::Mined;
            self.cells.set(index, c);
            let ghost g_mid = self.cells@;
            proof {
                lemma_count_mined_update(g_prev, index as int, c);
                assert(count_mined(g_mid) == k + 1);
                assert(g_mid == g_prev.update(
                    index as int,
                    CellInternal { kind: CellKind::Mined, state: g_prev[index as int].state },
                ));
            }
            let around = self.get_coords_around(px, py);
            let ghost around_seq = around@;
            let mut t: usize = 0;
            while t < around.len()
                invariant
                    t <= around_seq.len(),
                    around@ == around_seq,
                    around_seq.len() <= 8,
                    self.wf(),
                    o.wf(),
                    self.spec_options() == o,
                    !self.spec_mines_placed(),
                    self.grid().len() == o.size(),
                    g_prev.len() == o.size(),
                    g_mid.len() == o.size(),
                    grid_in_bounds(o, px as int, py as int),
                    0 <= index as int && (index as int) < o.size(),
                    index as int == gidx(o, px as int, py as int),
                    g_prev[index as int].kind != CellKind::Mined,
                    grid_adj_consistent(g_prev, o),
                    g_mid == g_prev.update(
                        index as int,
                        CellInternal { kind: CellKind::Mined, state: g_prev[index as int].state },
                    ),
                    forall|kk: int|
                        0 <= kk < around_seq.len() ==> grid_in_bounds(
                            o,
                            (#[trigger] around_seq[kk]).0 as int,
                            around_seq[kk].1 as int,
                        ) && is_neighbor(
                            px as int,
                            py as int,
                            around_seq[kk].0 as int,
                            around_seq[kk].1 as int,
                        ),
                    forall|k1: int, k2: int|
                        0 <= k1 < k2 < around_seq.len() ==> around_seq[k1] != around_seq[k2],
                    forall|nx: int, ny: int|
                        grid_in_bounds(o, nx, ny) && #[trigger] is_neighbor(
                            px as int,
                            py as int,
                            nx,
                            ny,
                        ) ==> around_seq.contains((nx as usize, ny as usize)),
                    forall|i: int|
                        0 <= i < self.grid().len() ==> (#[trigger] self.grid()[i]).state
                            == g_mid[i].state,
                    forall|i: int|
                        0 <= i < self.grid().len() ==> ((#[trigger] self.grid()[i]).kind
                            == CellKind::Mined <==> g_mid[i].kind == CellKind::Mined),
                    forall|i: int|
                        0 <= i < self.grid().len() && !coords_contain_index(
                            around_seq.take(t as int),
                            o,
                            i,
                        ) ==> (#[trigger] self.grid()[i]).kind == g_mid[i].kind,
                    forall|kk: int|
                        0 <= kk < t ==> ({
                            let ii2 = gidx(
                                o,
                                (#[trigger] around_seq[kk]).0 as int,
                                around_seq[kk].1 as int,
                            );
                            &&& (g_mid[ii2].kind != CellKind::Mined ==> self.grid()[
                                ii2
                            ].kind.as_int() == g_mid[ii2].kind.as_int() + 1 && self.grid()[
                                ii2
                            ].kind != CellKind::Mined)
                            &&& (g_mid[ii2].kind == CellKind::Mined ==> self.grid()[ii2].kind
                                == g_mid[ii2].kind)
                        }),
                decreases around_seq.len() - t,
            {
                let pair = around[t];
                let nx = pair.0;
                let ny = pair.1;
                let ii = self.flat_index(nx, ny);
                proof {
                    lemma_untouched_neighbor(
                        g_prev,
                        g_mid,
                        self.cells@,
                        o,
                        around_seq,
                        t as int,
                        px as int,
                        py as int,
                        index as int,
                    );
                }
                let mut c2 = self.cells[ii];
                c2.kind.increment();
                let ghost g_before = self.cells@;
                self.cells.set(ii, c2);
                proof {
                    lemma_bump_maintains(
                        g_mid,
                        g_before,
                        self.cells@,
                        o,
                        around_seq,
                        t as int,
                        c2,
                    );
                }
                t = t + 1;
            }
            proof {
                let g_new = self.cells@;
                lemma_count_mined_pointwise(g_new, g_mid);
                assert forall|x: int, y: int|
                    grid_in_bounds(o, x, y) && !#[trigger] grid_mined(g_new, o, x, y) implies g_new[
                    gidx(o, x, y)
                ].kind.as_int() == grid_adj_count(g_new, o, x, y) by {
                    lemma_gidx_bounds(o, x, y);
                    let ii2 = gidx(o, x, y);
                    lemma_adj_count_same_mines(g_mid, g_new, o, x, y);
                    lemma_adj_count_after_mine(g_prev, o, px as int, py as int, x, y);
                    assert(!grid_mined(g_mid, o, x, y));
                    if is_neighbor(px as int, py as int, x, y) {
                        assert(around_seq.contains((x as usize, y as usize)));
                        let kk = choose|kk: int|
                            0 <= kk < around_seq.len() && around_seq[kk] == (
                            x as usize,
                            y as usize,
                        );
                        assert(around_seq.take(around_seq.len() as int) =~= around_seq);
                        assert(gidx(o, around_seq[kk].0 as int, around_seq[kk].1 as int) == ii2);
                        assert(g_mid[ii2].kind != CellKind::Mined);
                        assert(ii2 != index as int);
                        assert(g_mid[ii2].kind == g_prev[ii2].kind);
                        assert(g_new[ii2].kind.as_int() == g_prev[ii2].kind.as_int() + 1);
                        assert(g_prev[ii2].kind.as_int() == grid_adj_count(g_prev, o, x, y));
                    } else {
                        if ii2 == index as int {
                            lemma_gidx_injective(o, x, y, px as int, py as int);
                            assert(x == px as int && y == py as int);
                            assert(grid_mined(g_mid, o, x, y));
                            assert(false);
                        }
                        if coords_contain_index(around_seq.take(around_seq.len() as int), o, ii2) {
                            let kk = choose|kk: int|
                                0 <= kk < around_seq.take(around_seq.len() as int).len() && gidx(
                                    o,
                                    (around_seq.take(around_seq.len() as int)[kk]).0 as int,
                                    around_seq.take(around_seq.len() as int)[kk].1 as int,
                                ) == ii2;
                            lemma_gidx_injective(
                                o,
                                around_seq[kk].0 as int,
                                around_seq[kk].1 as int,
                                x,
                                y,
                            );
                            assert(is_neighbor(px as int, py as int, x, y));
                            assert(false);
                        }
                        assert(g_new[ii2].kind == g_mid[ii2].kind);
                        assert(g_mid[ii2].kind == g_prev[ii2].kind);
                    }
                }
                assert forall|i: int| 0 <= i < g_new.len() implies ((#[trigger] g_new[i]).kind
                    == CellKind::Mined <==> picks_mined(
                    picks@.take(k as int + 1),
                    init_index as int,
                    i,
                )) by {
                    if g_new[i].kind == CellKind::Mined {
                        if g_prev[i].kind == CellKind::Mined {
                            let j = choose|j: int|
                                0 <= j < picks@.take(k as int).len() && remap(
                                    init_index as int,
                                    picks@.take(k as int)[j] as int,
                                ) == i;
                            assert(picks@.take(k as int + 1)[j] == picks@[j]);
                            assert(picks_mined(picks@.take(k as int + 1), init_index as int, i));
                        } else {
                            assert(i == index as int);
                            assert(picks@.take(k as int + 1)[k as int] == picks@[k as int]);
                            assert(remap(init_index as int, picks@[k as int] as int)
                                == index as int);
                            assert(picks_mined(picks@.take(k as int + 1), init_index as int, i));
                        }
                    }
                    if picks_mined(picks@.take(k as int + 1), init_index as int, i) {
                        let j = choose|j: int|
                            0 <= j < picks@.take(k as int + 1).len() && remap(
                                init_index as int,
                                (#[trigger] picks@.take(k as int + 1)[j]) as int,
                            ) == i;
                        if j < k as int {
                            assert(picks@.take(k as int)[j] == picks@[j]);
                            assert(picks_mined(picks@.take(k as int), init_index as int, i));
                            assert(g_prev[i].kind == CellKind::Mined);
                        } else {
                            assert(i == index as int);
                        }
                        assert(g_new[i].kind == CellKind::Mined);
                    }
                }
            }
            k = k + 1;
        }
        self.mines_placed = true;
        proof {
            let g_new = self.cells@;
            assert(picks@.take(picks@.len() as int) =~= picks@);
            if picks_mined(picks@, init_index as int, init_index as int) {
                let j = choose|j: int|
                    0 <= j < picks@.len() && remap(init_index as int, picks@[j] as int)
                        == init_index as int;
                assert(false);
            }
        }
    }

    /// Relies on rand::seq::index::sample (driven by rand::rng, the thread
    /// RNG): it returns exactly `amount` distinct indices drawn uniformly
    /// from 0..length, and panics only when amount > length; IndexVec's
    /// into_vec merely converts the result.
    #[verifier::external_body]
    pub(crate) fn sample_indices(length: usize, amount: usize) -> (r: Vec<usize>)
        requires
            amount <= length,
        ensures
            r@.len() == amount,
            forall|j: int| 0 <= j < r@.len() ==> (#[trigger] r@[j]) < length,
            forall|j1: int, j2: int| 0 <= j1 < j2 < r@.len() ==> r@[j1] != r@[j2],
    {
        rand::seq::index::sample(&mut rand::rng(), length, amount).into_vec()
    }

    /// Chooses the board's mine positions uniformly at random from all cells
    /// except (init_x, init_y), then fills in every adjacency count. The
    /// drawn positions vary from run to run; everything stated here holds of
    /// every draw.
    pub fn place_random_mines(&mut self, init_x: usize, init_y: usize)
        requires
            old(self).wf(),
            !old(self).spec_mines_placed(),
            old(self).kinds_clear(),
            old(self).in_bounds(init_x as int, init_y as int),
        ensures
            final(self).wf(),
            final(self).spec_options() == old(self).spec_options(),
            final(self).spec_mines_placed(),
            final(self).adj_consistent(),
            !final(self).mined_at(init_x as int, init_y as int),
            final(self).grid().len() == old(self).grid().len(),
            forall|i: int|
                0 <= i < final(self).grid().len() ==> (#[trigger] final(self).grid()[i]).state
                    == old(self).grid()[i].state,
            count_mined(final(self).grid()) == final(self).spec_options().mines,
    {
        proof {
            lemma_size_bounds(self.spec_options());
        }
        let total = self.options.cols * self.options.rows;
        let picks = Self::sample_indices(total - 1, self.options.mines);
        self.place_mines_at(&picks, init_x, init_y);
    }
}

} // verus!
