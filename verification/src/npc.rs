//! NPCs wandering an ASCII grid: one random step each per turn, onto a free
//! neighbouring cell, processed top to bottom and right to left.

use vstd::prelude::*;
use std::cmp::Ordering;
use crate::cards::{spec_lcg_next, swap_at, lemma_swap_keeps_cards};
pub use crate::cards::lcg_next;

verus! {

/// The grid cell an NPC occupies.
#[derive(Clone, Copy, Debug, PartialEq, Eq, Structural)]
pub struct Position {
    pub x: usize,
    pub y: usize,
}

/// The simulation's settings: grid size, population and seed.
#[derive(Clone, Copy, Debug, PartialEq, Eq, Structural)]
pub struct EcsAsciiSimConfig {
    /// Grid width in cells (the X axis).
    pub width: usize,
    /// Grid height in cells (the Y axis).
    pub height: usize,
    /// How many NPCs to spawn (clamped to grid capacity).
    pub npc_count: usize,
    /// Seed for the deterministic pseudo-random number generator.
    pub seed: u64,
}

impl Default for EcsAsciiSimConfig {
    /// A 100 by 100 grid with a thousand NPCs.
    fn default() -> (c: EcsAsciiSimConfig)
        ensures
            c == (EcsAsciiSimConfig { width: 100, height: 100, npc_count: 1000, seed: 0xDEAD_BEEF }),
    {
        EcsAsciiSimConfig { width: 100, height: 100, npc_count: 1000, seed: 0xDEAD_BEEF }
    }
}

/// Where cell `(x, y)` sits in a row-major grid `w` cells wide.
pub open spec fn cell_index(w: int, x: int, y: int) -> int {
    y * w + x
}

/// The occupancy grid as plain values.
pub struct GridView {
    pub width: usize,
    pub height: usize,
    pub cells: Seq<bool>,
}

/// A grid with one flag per cell.
pub open spec fn grid_wf(g: GridView) -> bool {
    g.cells.len() == g.width * g.height
}

/// Whether cell `(x, y)` of the grid is marked occupied.
pub open spec fn occupied(g: GridView, x: int, y: int) -> bool {
    g.cells[cell_index(g.width as int, x, y)]
}

/// One flag per cell, `true` where an NPC stands, stored row by row.
pub struct OccupancyGrid {
    cells: Vec<bool>,
    pub width: usize,
    pub height: usize,
}

impl View for OccupancyGrid {
    type V = GridView;

    closed spec fn view(&self) -> GridView {
        GridView { width: self.width, height: self.height, cells: self.cells@ }
    }
}

/// Row-major indices stay inside the grid.
pub proof fn lemma_cell_index_bounds(w: int, h: int, x: int, y: int)
    requires
        0 <= x < w,
        0 <= y < h,
    ensures
        0 <= cell_index(w, x, y) < w * h,
        y * w + w <= w * h,
{
    assert(0 <= y * w) by (nonlinear_arith)
        requires
            0 <= y,
            0 <= w,
    ;
    assert(y * w + w <= w * h) by (nonlinear_arith)
        requires
            0 <= y < h,
            0 <= w,
    ;
}

/// Distinct cells have distinct indices.
pub proof fn lemma_cell_index_injective(w: int, x1: int, y1: int, x2: int, y2: int)
    requires
        0 <= x1 < w,
        0 <= x2 < w,
        0 <= y1,
        0 <= y2,
        cell_index(w, x1, y1) == cell_index(w, x2, y2),
    ensures
        x1 == x2,
        y1 == y2,
{
    vstd::arithmetic::div_mod::lemma_fundamental_div_mod_converse(cell_index(w, x1, y1), w, y1, x1);
    vstd::arithmetic::div_mod::lemma_fundamental_div_mod_converse(cell_index(w, x2, y2), w, y2, x2);
}

impl OccupancyGrid {
    /// An empty `width` by `height` grid.
    pub fn new(width: usize, height: usize) -> (g: OccupancyGrid)
        requires
            width * height <= usize::MAX,
        ensures
            g@.width == width,
            g@.height == height,
            grid_wf(g@),
            forall|i: int| 0 <= i < g@.cells.len() ==> !#[trigger] g@.cells[i],
    {
        OccupancyGrid { cells: vec![false; width * height], width, height }
    }

    /// The grid's width.
    pub fn width(&self) -> (w: usize)
        ensures
            w == self@.width,
    {
        self.width
    }

    /// The grid's height.
    pub fn height(&self) -> (h: usize)
        ensures
            h == self@.height,
    {
        self.height
    }

    /// Whether the flag at row-major index `y * width + x` is set.
    pub fn is_occupied(&self, x: usize, y: usize) -> (r: bool)
        requires
            cell_index(self@.width as int, x as int, y as int) < self@.cells.len(),
        ensures
            r == self@.cells[cell_index(self@.width as int, x as int, y as int)],
    {
        let len = self.cells.len();
        proof {
            assert(0 <= y * self.width) by (nonlinear_arith);
        }
        self.cells[y * self.width + x]
    }

    /// Sets the flag at row-major index `y * width + x`.
    pub fn set(&mut self, x: usize, y: usize, occupied: bool)
        requires
            cell_index(old(self)@.width as int, x as int, y as int) < old(self)@.cells.len(),
        ensures
            final(self)@ == (GridView {
                cells: old(self)@.cells.update(
                    cell_index(old(self)@.width as int, x as int, y as int),
                    occupied,
                ),
                ..old(self)@
            }),
    {
        let len = self.cells.len();
        proof {
            assert(0 <= y * self.width) by (nonlinear_arith);
        }
        self.cells.set(y * self.width + x, occupied);
    }
}

/// A draw from the simulation's generator: the next state.
pub open spec fn spec_next_u64(state: u64) -> u64 {
    spec_lcg_next(state)
}

/// The simulation's pseudo-random generator: the state is the last value
/// drawn.
pub struct Rng {
    state: u64,
}

impl View for Rng {
    type V = u64;

    closed spec fn view(&self) -> u64 {
        self.state
    }
}

impl Rng {
    /// A generator starting from `seed`.
    pub fn new(seed: u64) -> (r: Rng)
        ensures
            r@ == seed,
    {
        Rng { state: seed }
    }

    /// Advances the generator and returns its new state.
    pub fn next_u64(&mut self) -> (v: u64)
        ensures
            v == spec_next_u64(old(self)@),
            final(self)@ == v,
    {
        self.state = lcg_next(self.state);
        self.state
    }

    /// Returns a value in `0..len`: the next draw, reduced.
    pub fn range(&mut self, len: usize) -> (v: usize)
        requires
            len > 0,
        ensures
            final(self)@ == spec_next_u64(old(self)@),
            v == (spec_next_u64(old(self)@) as usize) % len,
            v < len,
    {
        (self.next_u64() as usize) % len
    }
}

/// Monotonically increasing count of turns elapsed.
#[derive(Clone, Copy, Debug, PartialEq, Eq, Structural, Default)]
pub struct TurnCount(pub u64);

/// The eight neighbouring offsets, as `(dx, dy)`, in the order they are
/// listed: the row above left to right, then left and right, then the row
/// below left to right.
pub open spec fn neighbor_offsets() -> Seq<(int, int)> {
    seq![(-1, -1), (0, -1), (1, -1), (-1, 0), (1, 0), (-1, 1), (0, 1), (1, 1)]
}

/// The in-bounds neighbours of `(x, y)` among the first `k` offsets.
pub open spec fn neighbors_upto(x: int, y: int, w: int, h: int, k: int) -> Seq<(usize, usize)>
    decreases k,
{
    if k <= 0 {
        Seq::empty()
    } else {
        let rest = neighbors_upto(x, y, w, h, k - 1);
        let (dx, dy) = neighbor_offsets()[k - 1];
        if 0 <= x + dx < w && 0 <= y + dy < h {
            rest.push(((x + dx) as usize, (y + dy) as usize))
        } else {
            rest
        }
    }
}

/// Every in-bounds neighbour of `(x, y)` in a `w` by `h` grid, cardinal and
/// diagonal, in offset order.
pub open spec fn spec_neighbors(x: int, y: int, w: int, h: int) -> Seq<(usize, usize)> {
    neighbors_upto(x, y, w, h, 8)
}

/// `v + d - 1` when it lies in `0..bound`.
fn shifted(v: usize, d: usize, bound: usize) -> (r: Option<usize>)
    requires
        d <= 2,
    ensures
        r == (if 0 <= v + d - 1 < bound {
            Some((v + d - 1) as usize)
        } else {
            None::<usize>
        }),
{
    if d == 0 {
        if v >= 1 && v - 1 < bound {
            Some(v - 1)
        } else {
            None
        }
    } else if d == 1 {
        if v < bound {
            Some(v)
        } else {
            None
        }
    } else {
        if v < bound && bound - v >= 2 {
            Some(v + 1)
        } else {
            None
        }
    }
}

/// Returns every in-bounds neighbour of `(x, y)` within a `w × h` grid.
///
/// Includes all 8 surrounding cells (cardinal and diagonal); cells near
/// walls have fewer neighbours because out-of-bounds positions are excluded.
pub fn valid_neighbors(x: usize, y: usize, w: usize, h: usize) -> (out: Vec<(usize, usize)>)
    ensures
        out@ == spec_neighbors(x as int, y as int, w as int, h as int),
{
    let dxs: [usize; 8] = [0, 1, 2, 0, 2, 0, 1, 2];
    let dys: [usize; 8] = [0, 0, 0, 1, 1, 2, 2, 2];
    let mut out: Vec<(usize, usize)> = Vec::new();
    let mut k: usize = 0;
    while k < 8
        invariant
            k <= 8,
            dxs@ == seq![0usize, 1, 2, 0, 2, 0, 1, 2],
            dys@ == seq![0usize, 0, 0, 1, 1, 2, 2, 2],
            out@ == neighbors_upto(x as int, y as int, w as int, h as int, k as int),
        decreases 8 - k,
    {
        proof {
            assert(neighbor_offsets()[k as int] == (dxs@[k as int] - 1, dys@[k as int] - 1));
        }
        match (shifted(x, dxs[k], w), shifted(y, dys[k], h)) {
            (Some(nx), Some(ny)) => {
                out.push((nx, ny));
            },
            _ => {},
        }
        k = k + 1;
    }
    out
}

/// The character drawn for one cell: `@` where some listed position stands,
/// `.` elsewhere.
pub open spec fn cell_char(occupied: Seq<(usize, usize)>, x: int, y: int) -> char {
    if exists|k: int| 0 <= k < occupied.len() && occupied[k] == (x as usize, y as usize) {
        '@'
    } else {
        '.'
    }
}

/// The grid drawn as text: `h` rows of `w` cells, each row ending in a
/// newline. Positions outside the grid are not drawn.
pub open spec fn spec_render(occupied: Seq<(usize, usize)>, w: int, h: int) -> Seq<char> {
    Seq::new(
        ((w + 1) * h) as nat,
        |i: int|
            if i % (w + 1) == w {
                '\n'
            } else {
                cell_char(occupied, i % (w + 1), i / (w + 1))
            },
    )
}

/// The order NPCs are processed in: rows top to bottom, and right to left
/// within a row.
pub open spec fn processing_order(a: (usize, usize), b: (usize, usize)) -> Ordering {
    if a.1 < b.1 {
        Ordering::Less
    } else if a.1 > b.1 {
        Ordering::Greater
    } else if a.0 > b.0 {
        Ordering::Less
    } else if a.0 < b.0 {
        Ordering::Greater
    } else {
        Ordering::Equal
    }
}

/// Ordering function for NPC processing each turn: ascending `y`, then
/// descending `x`.
pub fn process_order(a: &(usize, usize), b: &(usize, usize)) -> (o: Ordering)
    ensures
        o == processing_order(*a, *b),
{
    if a.1 < b.1 {
        Ordering::Less
    } else if a.1 > b.1 {
        Ordering::Greater
    } else if a.0 > b.0 {
        Ordering::Less
    } else if a.0 < b.0 {
        Ordering::Greater
    } else {
        Ordering::Equal
    }
}

/// Whether some listed position, inside a `w`-wide, `h`-high grid, falls on
/// row-major index `idx`.
pub open spec fn marks(occupied: Seq<(usize, usize)>, w: int, h: int, j: int, idx: int) -> bool {
    exists|k: int|
        0 <= k < j && (#[trigger] occupied[k]).0 < w && occupied[k].1 < h && cell_index(
            w,
            occupied[k].0 as int,
            occupied[k].1 as int,
        ) == idx
}

/// Renders a set of occupied positions onto a `w × h` character grid: `@`
/// marks an occupied cell and `.` an empty one, and each row ends with a
/// newline. Positions outside the grid are ignored.
pub fn render_grid(occupied: &[(usize, usize)], w: usize, h: usize) -> (s: String)
    requires
        (w + 1) * h <= usize::MAX,
    ensures
        s@ == spec_render(occupied@, w as int, h as int),
{
    proof {
        assert(w * h <= (w + 1) * h) by (nonlinear_arith);
    }
    let mut cells: Vec<bool> = vec![false; w * h];
    let mut j: usize = 0;
    while j < occupied.len()
        invariant
            j <= occupied@.len(),
            w * h <= usize::MAX,
            cells@.len() == w * h,
            forall|idx: int|
                0 <= idx < w * h ==> #[trigger] cells@[idx] == marks(occupied@, w as int, h as int, j as int, idx),
        decreases occupied@.len() - j,
    {
        let (x, y) = occupied[j];
        let ghost pre = cells@;
        if x < w && y < h {
            proof {
                lemma_cell_index_bounds(w as int, h as int, x as int, y as int);
            }
            cells.set(y * w + x, true);
        }
        proof {
            assert forall|idx: int| 0 <= idx < w * h implies #[trigger] cells@[idx] == marks(
                occupied@,
                w as int,
                h as int,
                j + 1,
                idx,
            ) by {
                if marks(occupied@, w as int, h as int, j as int, idx) {
                    let k = choose|k: int|
                        0 <= k < j && (#[trigger] occupied@[k]).0 < w && occupied@[k].1 < h
                            && cell_index(w as int, occupied@[k].0 as int, occupied@[k].1 as int) == idx;
                    assert(0 <= k < j + 1);
                }
                if x < w && y < h && cell_index(w as int, x as int, y as int) == idx {
                    assert(occupied@[j as int] == (x, y));
                }
                assert(pre[idx] == marks(occupied@, w as int, h as int, j as int, idx));
            }
        }
        j = j + 1;
    }
    proof {
        reveal_strlit("@");
        reveal_strlit(".");
        reveal_strlit("\n");
    }
    let ghost full = spec_render(occupied@, w as int, h as int);
    let mut out = String::new();
    let mut row: usize = 0;
    while row < h
        invariant
            row <= h,
            (w + 1) * h <= usize::MAX,
            w * h <= usize::MAX,
            cells@.len() == w * h,
            forall|idx: int|
                0 <= idx < w * h ==> #[trigger] cells@[idx] == marks(occupied@, w as int, h as int, occupied@.len() as int, idx),
            full == spec_render(occupied@, w as int, h as int),
            out@ == full.take(row * (w + 1)),
        decreases h - row,
    {
        proof {
            assert(row * (w + 1) + (w + 1) <= (w + 1) * h) by (nonlinear_arith)
                requires
                    row < h,
            ;
        }
        let mut col: usize = 0;
        while col < w
            invariant
                row < h,
                col <= w,
                (w + 1) * h <= usize::MAX,
                w * h <= usize::MAX,
                row * (w + 1) + (w + 1) <= (w + 1) * h,
                cells@.len() == w * h,
                forall|idx: int|
                    0 <= idx < w * h ==> #[trigger] cells@[idx] == marks(occupied@, w as int, h as int, occupied@.len() as int, idx),
                full == spec_render(occupied@, w as int, h as int),
                out@ == full.take(row * (w + 1) + col),
            decreases w - col,
        {
            proof {
                lemma_cell_index_bounds(w as int, h as int, col as int, row as int);
            }
            let here = cells[row * w + col];
            proof {
                let i = row * (w + 1) + col;
                vstd::arithmetic::div_mod::lemma_fundamental_div_mod_converse(i, w + 1, row as int, col as int);
                let ch = cell_char(occupied@, col as int, row as int);
                assert(full[i] == ch);
                if here {
                    let k = choose|k: int|
                        0 <= k < occupied@.len() && (#[trigger] occupied@[k]).0 < w && occupied@[k].1 < h
                            && cell_index(w as int, occupied@[k].0 as int, occupied@[k].1 as int)
                            == cell_index(w as int, col as int, row as int);
                    lemma_cell_index_injective(w as int, occupied@[k].0 as int, occupied@[k].1 as int, col as int, row as int);
                    assert(occupied@[k] == (col, row));
                    assert(ch == '@');
                } else {
                    if exists|k: int| 0 <= k < occupied@.len() && occupied@[k] == (col, row) {
                        let k = choose|k: int| 0 <= k < occupied@.len() && occupied@[k] == (col, row);
                        assert(marks(occupied@, w as int, h as int, occupied@.len() as int, cell_index(w as int, col as int, row as int)));
                    }
                    assert(ch == '.');
                }
                assert(full.take(i + 1) =~= full.take(i).push(ch));
            }
            proof {
                reveal_strlit("@");
                reveal_strlit(".");
            }
            if here {
                out.append("@");
            } else {
                out.append(".");
            }
            col = col + 1;
        }
        let ghost i = row * (w + 1) + w;
        proof {
            vstd::arithmetic::div_mod::lemma_fundamental_div_mod_converse(i, w + 1, row as int, w as int);
            assert(full[i] == '\n');
            assert(full.take(i + 1) =~= full.take(i).push('\n'));
            assert(i + 1 == (row + 1) * (w + 1)) by (nonlinear_arith)
                requires
                    i == row * (w + 1) + w,
            ;
        }
        proof {
            reveal_strlit("\n");
        }
        out.append("\n");
        proof {
            assert(out@ =~= full.take(i + 1));
        }
        row = row + 1;
    }
    proof {
        assert(full.take(h * (w + 1)) =~= full) by {
            assert(h * (w + 1) == (w + 1) * h) by (nonlinear_arith);
        }
    }
    out
}

// ── One turn ────────────────────────────────────────────────────────────────

/// Whether the grid and the NPCs agree: every NPC stands on its own cell of
/// the grid, and a cell is marked exactly when an NPC stands on it.
pub open spec fn consistent(g: GridView, ps: Seq<Position>) -> bool {
    &&& grid_wf(g)
    &&& forall|i: int| 0 <= i < ps.len() ==> (#[trigger] ps[i]).x < g.width && ps[i].y < g.height
    &&& forall|i: int, j: int| 0 <= i < ps.len() && 0 <= j < ps.len() && i != j ==> ps[i] != ps[j]
    &&& forall|x: int, y: int|
        0 <= x < g.width && 0 <= y < g.height ==> (#[trigger] occupied(g, x, y) <==> exists|i: int|
            0 <= i < ps.len() && ps[i] == (Position { x: x as usize, y: y as usize }))
}

/// Fisher-Yates over a neighbour list from index `i` down to 1, drawing
/// `range(i + 1)` from the generator for each.
pub open spec fn shuffle_cells(s: Seq<(usize, usize)>, state: u64, i: int) -> (Seq<(usize, usize)>, u64)
    decreases i,
{
    if i <= 0 {
        (s, state)
    } else {
        let st = spec_next_u64(state);
        let j = ((st as usize) % ((i + 1) as usize)) as int;
        shuffle_cells(swap_at(s, i, j), st, i - 1)
    }
}

/// The first cell of `s`, from index `k` on, that the grid has free.
pub open spec fn first_free(s: Seq<(usize, usize)>, g: GridView, k: int) -> Option<int>
    decreases s.len() - k,
{
    if k < 0 || k >= s.len() {
        None
    } else if !occupied(g, s[k].0 as int, s[k].1 as int) {
        Some(k)
    } else {
        first_free(s, g, k + 1)
    }
}

/// NPC `i` takes its turn: its neighbours are shuffled, and it steps onto
/// the first free one, or stays when none is free.
pub open spec fn spec_move_one(ps: Seq<Position>, g: GridView, state: u64, i: int) -> (
    Seq<Position>,
    GridView,
    u64,
) {
    let p = ps[i];
    let nb = spec_neighbors(p.x as int, p.y as int, g.width as int, g.height as int);
    let (sh, st) = shuffle_cells(nb, state, nb.len() - 1);
    match first_free(sh, g, 0) {
        Some(k) => {
            let q = sh[k];
            (
                ps.update(i, Position { x: q.0, y: q.1 }),
                GridView {
                    cells: g.cells.update(cell_index(g.width as int, p.x as int, p.y as int), false).update(
                        cell_index(g.width as int, q.0 as int, q.1 as int),
                        true,
                    ),
                    ..g
                },
                st,
            )
        },
        None => (ps, g, st),
    }
}

/// The cell visited at step `k` of a turn: rows top to bottom, and right
/// to left within a row.
pub open spec fn scan_cell(w: int, k: int) -> (int, int) {
    (w - 1 - k % w, k / w)
}

/// Whether NPC `i` began the turn on cell `(x, y)`.
pub open spec fn started_at(start: Seq<Position>, i: int, x: int, y: int) -> bool {
    0 <= i < start.len() && start[i] == (Position { x: x as usize, y: y as usize })
}

/// The rest of a turn on a `w`-wide, `h`-high grid from scan step `k`: the
/// NPC that began the turn on each visited cell, if any, takes its move.
pub open spec fn turn_from(
    start: Seq<Position>,
    ps: Seq<Position>,
    g: GridView,
    state: u64,
    w: int,
    h: int,
    k: int,
) -> (Seq<Position>, GridView, u64)
    decreases w * h - k,
{
    if k < 0 || k >= w * h {
        (ps, g, state)
    } else {
        let (x, y) = scan_cell(w, k);
        if exists|i: int| started_at(start, i, x, y) {
            let i = choose|i: int| started_at(start, i, x, y);
            let (ps1, g1, st1) = spec_move_one(ps, g, state, i);
            turn_from(start, ps1, g1, st1, w, h, k + 1)
        } else {
            turn_from(start, ps, g, state, w, h, k + 1)
        }
    }
}

/// One turn: every NPC, in processing order, steps to a random free
/// neighbouring cell if it has one.
pub open spec fn spec_turn(ps: Seq<Position>, g: GridView, state: u64) -> (Seq<Position>, GridView, u64) {
    turn_from(ps, ps, g, state, g.width as int, g.height as int, 0)
}

/// Every listed neighbour is a different cell of the grid, one step away.
pub proof fn lemma_neighbors_adjacent(x: int, y: int, w: int, h: int, k: int)
    requires
        0 <= k <= 8,
        0 <= w <= usize::MAX,
        0 <= h <= usize::MAX,
    ensures
        neighbors_upto(x, y, w, h, k).len() <= k,
        forall|e: int|
            #![trigger neighbors_upto(x, y, w, h, k)[e]]
            0 <= e < neighbors_upto(x, y, w, h, k).len() ==> neighbors_upto(x, y, w, h, k)[e].0 < w
                && neighbors_upto(x, y, w, h, k)[e].1 < h && (neighbors_upto(x, y, w, h, k)[e].0 != x
                || neighbors_upto(x, y, w, h, k)[e].1 != y) && x - 1 <= neighbors_upto(x, y, w, h, k)[e].0
                <= x + 1 && y - 1 <= neighbors_upto(x, y, w, h, k)[e].1 <= y + 1,
    decreases k,
{
    if k > 0 {
        lemma_neighbors_adjacent(x, y, w, h, k - 1);
        let rest = neighbors_upto(x, y, w, h, k - 1);
        let (dx, dy) = neighbor_offsets()[k - 1];
        assert(-1 <= dx <= 1 && -1 <= dy <= 1 && (dx != 0 || dy != 0));
        if 0 <= x + dx < w && 0 <= y + dy < h {
            let c = ((x + dx) as usize, (y + dy) as usize);
            assert(c.0 == x + dx && c.1 == y + dy);
            assert forall|e: int| 0 <= e < rest.len() + 1 implies #[trigger] rest.push(c)[e] == (if e
                < rest.len() {
                rest[e]
            } else {
                c
            }) by {}
        }
    }
}

/// Shuffling a neighbour list keeps its cells and its length.
pub proof fn lemma_shuffle_cells_keeps(s: Seq<(usize, usize)>, state: u64, i: int)
    requires
        i < s.len() <= usize::MAX,
    ensures
        shuffle_cells(s, state, i).0.len() == s.len(),
        shuffle_cells(s, state, i).0.to_multiset() == s.to_multiset(),
    decreases i,
{
    if i > 0 {
        let st = spec_next_u64(state);
        let m = (i + 1) as usize;
        assert(m as int == i + 1);
        let j = ((st as usize) % m) as int;
        assert(0 <= j < i + 1);
        lemma_swap_keeps_cards(s, i, j);
        lemma_shuffle_cells_keeps(swap_at(s, i, j), st, i - 1);
    }
}

/// What `first_free` finds is a free cell of the list.
pub proof fn lemma_first_free(s: Seq<(usize, usize)>, g: GridView, k: int)
    ensures
        first_free(s, g, k) matches Some(f) ==> k <= f < s.len() && !occupied(g, s[f].0 as int, s[f].1 as int),
    decreases s.len() - k,
{
    if 0 <= k < s.len() && occupied(g, s[k].0 as int, s[k].1 as int) {
        lemma_first_free(s, g, k + 1);
    }
}

/// Every cell of a shuffled neighbour list is a neighbour.
proof fn lemma_shuffled_are_neighbors(p: Position, g: GridView, state: u64)
    ensures
        ({
            let nb = spec_neighbors(p.x as int, p.y as int, g.width as int, g.height as int);
            let sh = shuffle_cells(nb, state, nb.len() - 1).0;
            &&& sh.len() == nb.len()
            &&& nb.len() <= 8
            &&& forall|e: int|
                0 <= e < sh.len() ==> (#[trigger] sh[e]).0 < g.width && sh[e].1 < g.height && (sh[e].0
                    != p.x || sh[e].1 != p.y) && p.x - 1 <= sh[e].0 <= p.x + 1 && p.y - 1 <= sh[e].1
                    <= p.y + 1
        }),
{
    broadcast use vstd::seq_lib::to_multiset_contains;

    let nb = spec_neighbors(p.x as int, p.y as int, g.width as int, g.height as int);
    lemma_neighbors_adjacent(p.x as int, p.y as int, g.width as int, g.height as int, 8);
    if nb.len() > 0 {
        lemma_shuffle_cells_keeps(nb, state, nb.len() - 1);
    }
    let sh = shuffle_cells(nb, state, nb.len() - 1).0;
    assert forall|e: int| 0 <= e < sh.len() implies (#[trigger] sh[e]).0 < g.width && sh[e].1
        < g.height && (sh[e].0 != p.x || sh[e].1 != p.y) && p.x - 1 <= sh[e].0 <= p.x + 1 && p.y - 1
        <= sh[e].1 <= p.y + 1 by {
        assert(sh.contains(sh[e]));
        assert(sh.to_multiset() == nb.to_multiset());
        assert(sh.to_multiset().count(sh[e]) > 0);
        assert(nb.contains(sh[e]));
        let f = choose|f: int| 0 <= f < nb.len() && nb[f] == sh[e];
        assert(nb[f] == sh[e]);
    }
}

/// A move keeps the grid and the NPCs in agreement, and takes the NPC at
/// most one step, onto a cell of the grid.
pub proof fn lemma_move_keeps_consistent(ps: Seq<Position>, g: GridView, state: u64, i: int)
    requires
        consistent(g, ps),
        0 <= i < ps.len(),
    ensures
        ({
            let (ps1, g1, _) = spec_move_one(ps, g, state, i);
            &&& consistent(g1, ps1)
            &&& g1.width == g.width && g1.height == g.height
            &&& ps1.len() == ps.len()
            &&& forall|j: int| 0 <= j < ps.len() && j != i ==> ps1[j] == ps[j]
            &&& ps[i].x - 1 <= ps1[i].x <= ps[i].x + 1 && ps[i].y - 1 <= ps1[i].y <= ps[i].y + 1
        }),
{
    let p = ps[i];
    let w = g.width as int;
    let h = g.height as int;
    let nb = spec_neighbors(p.x as int, p.y as int, w, h);
    let (sh, st) = shuffle_cells(nb, state, nb.len() - 1);
    lemma_shuffled_are_neighbors(p, g, state);
    lemma_first_free(sh, g, 0);
    if let Some(k) = first_free(sh, g, 0) {
        let q = sh[k];
        let qp = Position { x: q.0, y: q.1 };
        let (ps1, g1, _) = spec_move_one(ps, g, state, i);
        let ip = cell_index(w, p.x as int, p.y as int);
        let iq = cell_index(w, q.0 as int, q.1 as int);
        lemma_cell_index_bounds(w, h, p.x as int, p.y as int);
        lemma_cell_index_bounds(w, h, q.0 as int, q.1 as int);
        if ip == iq {
            lemma_cell_index_injective(w, p.x as int, p.y as int, q.0 as int, q.1 as int);
        }
        assert(ip != iq);
        assert(!occupied(g, q.0 as int, q.1 as int));
        assert forall|j: int| 0 <= j < ps.len() implies ps[j] != qp by {
            if ps[j] == qp {
                assert(occupied(g, q.0 as int, q.1 as int));
            }
        }
        assert forall|x: int, y: int| 0 <= x < w && 0 <= y < h implies (#[trigger] occupied(g1, x, y)
            <==> exists|j: int|
            0 <= j < ps1.len() && ps1[j] == (Position { x: x as usize, y: y as usize })) by {
            let c = cell_index(w, x, y);
            lemma_cell_index_bounds(w, h, x, y);
            let here = Position { x: x as usize, y: y as usize };
            if c == ip {
                lemma_cell_index_injective(w, x, y, p.x as int, p.y as int);
                assert(!occupied(g1, x, y));
                if exists|j: int| 0 <= j < ps1.len() && ps1[j] == here {
                    let j = choose|j: int| 0 <= j < ps1.len() && ps1[j] == here;
                    assert(j != i);
                    assert(ps[j] == ps[i]);
                }
            } else if c == iq {
                lemma_cell_index_injective(w, x, y, q.0 as int, q.1 as int);
                assert(occupied(g1, x, y));
                assert(ps1[i] == here);
            } else {
                assert(occupied(g1, x, y) == occupied(g, x, y));
                if occupied(g, x, y) {
                    let j = choose|j: int| 0 <= j < ps.len() && ps[j] == here;
                    if j == i {
                        assert(c == ip);
                    }
                    assert(ps1[j] == here);
                }
                if exists|j: int| 0 <= j < ps1.len() && ps1[j] == here {
                    let j = choose|j: int| 0 <= j < ps1.len() && ps1[j] == here;
                    if j == i {
                        assert(c == iq);
                    }
                    assert(ps[j] == here);
                }
            }
        }
        assert forall|a: int, b: int|
            0 <= a < ps1.len() && 0 <= b < ps1.len() && a != b implies ps1[a] != ps1[b] by {
            if a == i {
                assert(ps[b] != qp);
            } else if b == i {
                assert(ps[a] != qp);
            }
        }
        assert forall|j: int| 0 <= j < ps1.len() implies (#[trigger] ps1[j]).x < g1.width && ps1[j].y
            < g1.height by {
            if j != i {
                assert(ps1[j] == ps[j]);
            }
        }
    }
}

/// Shuffles a neighbour list in place, drawing from the generator.
fn shuffle_neighbors(nb: &mut Vec<(usize, usize)>, rng: &mut Rng)
    requires
        old(nb)@.len() <= 8,
    ensures
        (final(nb)@, final(rng)@) == shuffle_cells(old(nb)@, old(rng)@, old(nb)@.len() - 1),
{
    let ghost nb0 = nb@;
    let ghost state = rng@;
    let n = nb.len();
    if n < 2 {
        return;
    }
    let mut k = n - 1;
    while k >= 1
        invariant
            n == nb@.len(),
            n == nb0.len(),
            n <= 8,
            k < n,
            shuffle_cells(nb@, rng@, k as int) == shuffle_cells(nb0, state, n - 1),
        decreases k,
    {
        let j = rng.range(k + 1);
        let ghost pre = nb@;
        let a = nb[k];
        let b = nb[j];
        nb.set(k, b);
        nb.set(j, a);
        proof {
            assert(nb@ =~= swap_at(pre, k as int, j as int));
        }
        k = k - 1;
    }
}

/// The index of the first cell of `cells` that the grid has free, if any.
fn first_free_index(cells: &Vec<(usize, usize)>, grid: &OccupancyGrid) -> (r: Option<usize>)
    requires
        grid_wf(grid@),
        forall|e: int|
            0 <= e < cells@.len() ==> (#[trigger] cells@[e]).0 < grid@.width && cells@[e].1 < grid@.height,
    ensures
        r == (match first_free(cells@, grid@, 0) {
            Some(k) => Some(k as usize),
            None => None::<usize>,
        }),
{
    let n = cells.len();
    let mut f: usize = 0;
    while f < n
        invariant
            n == cells@.len(),
            f <= n,
            grid_wf(grid@),
            forall|e: int|
                0 <= e < cells@.len() ==> (#[trigger] cells@[e]).0 < grid@.width && cells@[e].1 < grid@.height,
            first_free(cells@, grid@, 0) == first_free(cells@, grid@, f as int),
        decreases n - f,
    {
        let (x, y) = cells[f];
        proof {
            assert(cells@[f as int] == (x, y));
            lemma_cell_index_bounds(grid@.width as int, grid@.height as int, x as int, y as int);
        }
        if !grid.is_occupied(x, y) {
            return Some(f);
        }
        f = f + 1;
    }
    None
}

/// NPC `i` takes its move.
fn move_one(positions: &mut Vec<Position>, grid: &mut OccupancyGrid, rng: &mut Rng, i: usize)
    requires
        consistent(old(grid)@, old(positions)@),
        i < old(positions)@.len(),
    ensures
        (final(positions)@, final(grid)@, final(rng)@) == spec_move_one(
            old(positions)@,
            old(grid)@,
            old(rng)@,
            i as int,
        ),
{
    let p = positions[i];
    let ghost g = grid@;
    let ghost state = rng@;
    let mut nb = valid_neighbors(p.x, p.y, grid.width, grid.height);
    proof {
        lemma_shuffled_are_neighbors(p, g, state);
    }
    shuffle_neighbors(&mut nb, rng);
    let found = first_free_index(&nb, grid);
    proof {
        lemma_first_free(nb@, g, 0);
    }
    if let Some(f) = found {
        let (qx, qy) = nb[f];
        proof {
            lemma_cell_index_bounds(g.width as int, g.height as int, p.x as int, p.y as int);
            lemma_cell_index_bounds(g.width as int, g.height as int, qx as int, qy as int);
        }
        grid.set(p.x, p.y, false);
        grid.set(qx, qy, true);
        positions.set(i, Position { x: qx, y: qy });
    }
}

/// A whole turn keeps the grid and the NPCs in agreement.
pub proof fn lemma_turn_keeps_consistent(
    start: Seq<Position>,
    ps: Seq<Position>,
    g: GridView,
    state: u64,
    w: int,
    h: int,
    k: int,
)
    requires
        consistent(g, ps),
        start.len() == ps.len(),
        w == g.width,
        h == g.height,
    ensures
        ({
            let (ps1, g1, _) = turn_from(start, ps, g, state, w, h, k);
            &&& consistent(g1, ps1)
            &&& g1.width == g.width && g1.height == g.height
            &&& ps1.len() == ps.len()
        }),
    decreases w * h - k,
{
    if 0 <= k < w * h {
        let (x, y) = scan_cell(w, k);
        if exists|i: int| started_at(start, i, x, y) {
            let i = choose|i: int| started_at(start, i, x, y);
            lemma_move_keeps_consistent(ps, g, state, i);
            let (ps1, g1, st1) = spec_move_one(ps, g, state, i);
            lemma_turn_keeps_consistent(start, ps1, g1, st1, w, h, k + 1);
        } else {
            lemma_turn_keeps_consistent(start, ps, g, state, w, h, k + 1);
        }
    }
}

/// The scan visits cells of the grid.
proof fn lemma_scan_cell_bounds(w: int, h: int, k: int)
    requires
        0 <= k < w * h,
        0 < w,
    ensures
        0 <= scan_cell(w, k).0 < w,
        0 <= scan_cell(w, k).1 < h,
        cell_index(w, scan_cell(w, k).0, scan_cell(w, k).1) < w * h,
{
    assert(0 <= k / w < h) by (nonlinear_arith)
        requires
            0 <= k < w * h,
            0 < w,
    ;
    assert(0 <= k % w < w) by (nonlinear_arith)
        requires
            0 < w,
    ;
    lemma_cell_index_bounds(w, h, scan_cell(w, k).0, scan_cell(w, k).1);
}

/// Advances every NPC by one step.
///
/// The turn counter goes up by one. NPCs are processed top to bottom, and
/// right to left within a row; each shuffles its in-bounds neighbours with
/// the generator and steps onto the first free one, or stays when none is
/// free. The grid keeps marking exactly the cells NPCs stand on.
pub fn move_npcs(positions: &mut Vec<Position>, grid: &mut OccupancyGrid, rng: &mut Rng, turn: &mut TurnCount)
    requires
        consistent(old(grid)@, old(positions)@),
        old(turn).0 < u64::MAX,
    ensures
        final(turn).0 == old(turn).0 + 1,
        (final(positions)@, final(grid)@, final(rng)@) == spec_turn(old(positions)@, old(grid)@, old(rng)@),
        consistent(final(grid)@, final(positions)@),
        final(positions)@.len() == old(positions)@.len(),
        forall|j: int|
            0 <= j < old(positions)@.len() ==> within_one_step(
                old(positions)@[j].x as int,
                old(positions)@[j].y as int,
                (#[trigger] final(positions)@[j]).x as int,
                final(positions)@[j].y as int,
            ),
{
    proof {
        lemma_turn_moves_one_step(
            old(positions)@,
            old(positions)@,
            old(grid)@,
            old(rng)@,
            old(grid)@.width as int,
            old(grid)@.height as int,
            0,
        );
    }
    turn.0 = turn.0 + 1;
    let ghost start = positions@;
    let ghost g0 = grid@;
    let ghost s0 = rng@;
    let w = grid.width;
    let h = grid.height;
    let total = grid.cells.len();
    let n = positions.len();
    // Which NPC began the turn on each cell, plus one; zero for none.
    let mut owner: Vec<usize> = vec![0usize; total];
    let mut i: usize = 0;
    while i < n
        invariant
            i <= n,
            n == start.len(),
            positions@ == start,
            grid@ == g0,
            consistent(g0, start),
            total == w * h,
            w == g0.width,
            h == g0.height,
            owner@.len() == total,
            forall|j: int| 0 <= j < i ==> owner@[cell_index(w as int, #[trigger] start[j].x as int, start[j].y as int)] == j + 1,
            forall|c: int|
                0 <= c < total && #[trigger] owner@[c] != 0 ==> owner@[c] - 1 < i && cell_index(
                    w as int,
                    start[owner@[c] - 1].x as int,
                    start[owner@[c] - 1].y as int,
                ) == c,
        decreases n - i,
    {
        let p = positions[i];
        proof {
            lemma_cell_index_bounds(w as int, h as int, p.x as int, p.y as int);
        }
        let ghost pre = owner@;
        owner.set(p.y * w + p.x, i + 1);
        proof {
            assert forall|j: int| 0 <= j < i + 1 implies owner@[cell_index(w as int, #[trigger] start[j].x as int, start[j].y as int)] == j + 1 by {
                if j < i {
                    lemma_cell_index_bounds(w as int, h as int, start[j].x as int, start[j].y as int);
                    if cell_index(w as int, start[j].x as int, start[j].y as int) == cell_index(w as int, p.x as int, p.y as int) {
                        lemma_cell_index_injective(w as int, start[j].x as int, start[j].y as int, p.x as int, p.y as int);
                        assert(start[j] == start[i as int]);
                    }
                }
            }
        }
        i = i + 1;
    }
    let mut k: usize = 0;
    while k < total
        invariant
            k <= total,
            n == start.len(),
            consistent(g0, start),
            total == w * h,
            w == g0.width,
            h == g0.height,
            owner@.len() == total,
            forall|j: int| 0 <= j < n ==> owner@[cell_index(w as int, #[trigger] start[j].x as int, start[j].y as int)] == j + 1,
            forall|c: int|
                0 <= c < total && #[trigger] owner@[c] != 0 ==> owner@[c] - 1 < n && cell_index(
                    w as int,
                    start[owner@[c] - 1].x as int,
                    start[owner@[c] - 1].y as int,
                ) == c,
            consistent(grid@, positions@),
            positions@.len() == n,
            grid@.width == w,
            grid@.height == h,
            turn_from(start, positions@, grid@, rng@, w as int, h as int, k as int) == spec_turn(start, g0, s0),
        decreases total - k,
    {
        proof {
            lemma_scan_cell_bounds(w as int, h as int, k as int);
        }
        let y = k / w;
        let x = w - 1 - k % w;
        let o = owner[y * w + x];
        proof {
            let c = cell_index(w as int, x as int, y as int);
            if o != 0 {
                let j = o - 1;
                lemma_cell_index_injective(w as int, start[j as int].x as int, start[j as int].y as int, x as int, y as int);
                assert(started_at(start, j as int, x as int, y as int));
                let i0 = choose|i: int| started_at(start, i, x as int, y as int);
                assert(start[i0] == start[j as int]);
            } else {
                if exists|i: int| started_at(start, i, x as int, y as int) {
                    let i0 = choose|i: int| started_at(start, i, x as int, y as int);
                    assert(owner@[cell_index(w as int, start[i0].x as int, start[i0].y as int)] == i0 + 1);
                }
            }
        }
        if o != 0 {
            proof {
                lemma_move_keeps_consistent(positions@, grid@, rng@, (o - 1) as int);
            }
            move_one(positions, grid, rng, o - 1);
        }
        k = k + 1;
    }
    proof {
        assert forall|j: int| 0 <= j < start.len() implies within_one_step(
            start[j].x as int,
            start[j].y as int,
            (#[trigger] positions@[j]).x as int,
            positions@[j].y as int,
        ) by {
            assert(positions@[j] == turn_from(start, start, g0, s0, g0.width as int, g0.height as int, 0).0[j]);
        }
    }
}

/// One attempt at placing an NPC, as the simulation's setup makes until it
/// has placed them all: a column and then a row are drawn, and the cell is
/// taken if it is free.
pub fn try_place(grid: &mut OccupancyGrid, rng: &mut Rng) -> (placed: Option<Position>)
    requires
        grid_wf(old(grid)@),
        old(grid)@.width > 0,
        old(grid)@.height > 0,
    ensures
        ({
            let s1 = spec_next_u64(old(rng)@);
            let s2 = spec_next_u64(s1);
            let x = ((s1 as usize) % old(grid)@.width) as int;
            let y = ((s2 as usize) % old(grid)@.height) as int;
            &&& final(rng)@ == s2
            &&& if occupied(old(grid)@, x, y) {
                placed == None::<Position> && final(grid)@ == old(grid)@
            } else {
                placed == Some(Position { x: x as usize, y: y as usize }) && final(grid)@ == (GridView {
                    cells: old(grid)@.cells.update(cell_index(old(grid)@.width as int, x, y), true),
                    ..old(grid)@
                })
            }
        }),
{
    let x = rng.range(grid.width);
    let y = rng.range(grid.height);
    proof {
        lemma_cell_index_bounds(grid@.width as int, grid@.height as int, x as int, y as int);
    }
    if grid.is_occupied(x, y) {
        None
    } else {
        grid.set(x, y, true);
        Some(Position { x, y })
    }
}

/// Placing an NPC on a free cell keeps the grid and the NPCs in agreement.
pub proof fn lemma_place_keeps_consistent(g: GridView, ps: Seq<Position>, p: Position)
    requires
        consistent(g, ps),
        p.x < g.width,
        p.y < g.height,
        !occupied(g, p.x as int, p.y as int),
    ensures
        consistent(
            GridView { cells: g.cells.update(cell_index(g.width as int, p.x as int, p.y as int), true), ..g },
            ps.push(p),
        ),
{
    let w = g.width as int;
    let h = g.height as int;
    let g1 = GridView { cells: g.cells.update(cell_index(w, p.x as int, p.y as int), true), ..g };
    let ps1 = ps.push(p);
    lemma_cell_index_bounds(w, h, p.x as int, p.y as int);
    assert forall|j: int| 0 <= j < ps.len() implies ps[j] != p by {
        if ps[j] == p {
            assert(occupied(g, p.x as int, p.y as int));
        }
    }
    assert forall|x: int, y: int| 0 <= x < w && 0 <= y < h implies (#[trigger] occupied(g1, x, y)
        <==> exists|j: int| 0 <= j < ps1.len() && ps1[j] == (Position { x: x as usize, y: y as usize })) by {
        let here = Position { x: x as usize, y: y as usize };
        lemma_cell_index_bounds(w, h, x, y);
        if cell_index(w, x, y) == cell_index(w, p.x as int, p.y as int) {
            lemma_cell_index_injective(w, x, y, p.x as int, p.y as int);
            assert(ps1[ps.len() as int] == here);
        } else {
            if occupied(g, x, y) {
                let j = choose|j: int| 0 <= j < ps.len() && ps[j] == here;
                assert(ps1[j] == here);
            }
            if exists|j: int| 0 <= j < ps1.len() && ps1[j] == here {
                let j = choose|j: int| 0 <= j < ps1.len() && ps1[j] == here;
                if j == ps.len() {
                    assert(here == p);
                } else {
                    assert(ps[j] == here);
                }
            }
        }
    }
    assert forall|a: int, b: int| 0 <= a < ps1.len() && 0 <= b < ps1.len() && a != b implies ps1[a] != ps1[b] by {
        if a == ps.len() {
            assert(ps[b] != p);
        } else if b == ps.len() {
            assert(ps[a] != p);
        }
    }
}

/// The scan step at which cell `(x, y)` is visited.
pub open spec fn scan_step(w: int, x: int, y: int) -> int {
    y * w + (w - 1 - x)
}

/// Cells `(x1, y1)` and `(x2, y2)` are at most one step apart.
pub open spec fn within_one_step(x1: int, y1: int, x2: int, y2: int) -> bool {
    x1 - 1 <= x2 <= x1 + 1 && y1 - 1 <= y2 <= y1 + 1
}

/// A scan step visits the cell whose scan step it is.
proof fn lemma_scan_step_of_cell(w: int, k: int)
    requires
        0 < w,
        0 <= k,
    ensures
        scan_step(w, scan_cell(w, k).0, scan_cell(w, k).1) == k,
{
    vstd::arithmetic::div_mod::lemma_fundamental_div_mod(k, w);
    assert((k / w) * w == w * (k / w)) by (nonlinear_arith);
}

#[verifier::rlimit(40)]
/// Over a turn each NPC takes at most one step: an NPC whose cell the scan
/// has not reached yet has not moved, and every NPC ends within one step of
/// where it began.
pub proof fn lemma_turn_moves_one_step(
    start: Seq<Position>,
    ps: Seq<Position>,
    g: GridView,
    state: u64,
    w: int,
    h: int,
    k: int,
)
    requires
        consistent(g, ps),
        start.len() == ps.len(),
        w == g.width,
        h == g.height,
        0 <= k,
        forall|i: int, j: int| 0 <= i < start.len() && 0 <= j < start.len() && i != j ==> start[i] != start[j],
        forall|j: int|
            0 <= j < ps.len() ==> within_one_step(start[j].x as int, start[j].y as int, (#[trigger] ps[j]).x as int, ps[j].y as int),
        forall|j: int|
            0 <= j < ps.len() && scan_step(w, start[j].x as int, start[j].y as int) >= k ==> #[trigger] ps[j] == start[j],
    ensures
        forall|j: int|
            0 <= j < ps.len() ==> within_one_step(
                start[j].x as int,
                start[j].y as int,
                (#[trigger] turn_from(start, ps, g, state, w, h, k).0[j]).x as int,
                turn_from(start, ps, g, state, w, h, k).0[j].y as int,
            ),
    decreases w * h - k,
{
    if k < w * h {
        assert(w > 0) by (nonlinear_arith)
            requires
                0 <= k < w * h,
                w >= 0,
                h >= 0,
        ;
        let (x, y) = scan_cell(w, k);
        lemma_scan_step_of_cell(w, k);
        lemma_scan_cell_bounds(w, h, k);
        if exists|i: int| started_at(start, i, x, y) {
            let i = choose|i: int| started_at(start, i, x, y);
            assert(start[i].x as int == x && start[i].y as int == y);
            lemma_move_keeps_consistent(ps, g, state, i);
            let (ps1, g1, st1) = spec_move_one(ps, g, state, i);
            assert(ps[i] == start[i]);
            assert forall|j: int| 0 <= j < ps1.len() implies within_one_step(
                start[j].x as int,
                start[j].y as int,
                (#[trigger] ps1[j]).x as int,
                ps1[j].y as int,
            ) by {
                if j != i {
                    assert(ps1[j] == ps[j]);
                }
            }
            assert forall|j: int|
                0 <= j < ps1.len() && scan_step(w, start[j].x as int, start[j].y as int) >= k + 1 implies #[trigger] ps1[j]
                == start[j] by {
                if j == i {
                    assert(scan_step(w, start[i].x as int, start[i].y as int) == k);
                } else {
                    assert(ps1[j] == ps[j]);
                }
            }
            lemma_turn_moves_one_step(start, ps1, g1, st1, w, h, k + 1);
            assert(turn_from(start, ps, g, state, w, h, k) == turn_from(start, ps1, g1, st1, w, h, k + 1));
        } else {
            assert forall|j: int|
                0 <= j < ps.len() && scan_step(w, start[j].x as int, start[j].y as int) >= k + 1 implies #[trigger] ps[j]
                == start[j] by {}
            lemma_turn_moves_one_step(start, ps, g, state, w, h, k + 1);
            assert(turn_from(start, ps, g, state, w, h, k) == turn_from(start, ps, g, state, w, h, k + 1));
        }
    } else {
        assert(turn_from(start, ps, g, state, w, h, k) == (ps, g, state));
    }
}

/// The cell visited at scan step `k`, as grid coordinates.
pub open spec fn visited(w: int, k: int) -> (usize, usize) {
    (scan_cell(w, k).0 as usize, scan_cell(w, k).1 as usize)
}

/// The cell visited at a scan step lies in the grid, and its coordinates
/// are those of `scan_cell`.
proof fn lemma_visited(w: int, h: int, k: int)
    requires
        0 <= k < w * h,
        w <= usize::MAX,
        0 <= h <= usize::MAX,
    ensures
        visited(w, k).0 as int == scan_cell(w, k).0,
        visited(w, k).1 as int == scan_cell(w, k).1,
        0 < w,
{
    assert(w > 0) by (nonlinear_arith)
        requires
            0 <= k < w * h,
            h >= 0,
    ;
    lemma_scan_cell_bounds(w, h, k);
    assert(scan_cell(w, k).1 <= k) by (nonlinear_arith)
        requires
            0 < w,
            0 <= k,
            scan_cell(w, k).1 == k / w,
    ;
}

/// The turn visits cells in the processing order that `process_order`
/// defines: a cell visited earlier always comes first in that order.
pub proof fn lemma_scan_follows_processing_order(w: int, h: int, k1: int, k2: int)
    requires
        0 <= k1 < k2 < w * h,
        w <= usize::MAX,
        0 <= h <= usize::MAX,
    ensures
        processing_order(visited(w, k1), visited(w, k2)) == Ordering::Less,
{
    lemma_visited(w, h, k1);
    lemma_visited(w, h, k2);
    vstd::arithmetic::div_mod::lemma_fundamental_div_mod(k1, w);
    vstd::arithmetic::div_mod::lemma_fundamental_div_mod(k2, w);
    vstd::arithmetic::div_mod::lemma_div_is_ordered(k1, k2, w);
    if k1 / w == k2 / w {
        assert(k1 % w < k2 % w) by (nonlinear_arith)
            requires
                k1 == w * (k1 / w) + k1 % w,
                k2 == w * (k2 / w) + k2 % w,
                k1 / w == k2 / w,
                k1 < k2,
        ;
    }
}

} // verus!
