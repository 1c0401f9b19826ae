//! Destructible terrain: a grid of wall tiles with hit points, and a player
//! who walks the floor one cell at a time and never enters a wall.

use vstd::prelude::*;

verus! {

/// Columns in the terrain grid.
pub const COLS: usize = 22;

/// Rows in the terrain grid.
pub const ROWS: usize = 14;

/// Applies `damage` to a tile's hit points: `None` when the tile is
/// destroyed (no hit points left), otherwise what remains.
pub fn damage_tile(hp: i32, damage: i32) -> (r: Option<i32>)
    requires
        i32::MIN <= hp - damage <= i32::MAX,
    ensures
        r == (if hp - damage <= 0 {
            None
        } else {
            Some((hp - damage) as i32)
        }),
{
    let new_hp = hp - damage;
    if new_hp <= 0 {
        None
    } else {
        Some(new_hp)
    }
}

/// Which cells start as wall: the whole border, and interior pillars where
/// the column is a multiple of 4 and the row a multiple of 3.
pub open spec fn spec_is_wall_cell(col: int, row: int) -> bool {
    col == 0 || row == 0 || col == COLS - 1 || row == ROWS - 1 || (col % 4 == 0 && row % 3 == 0)
}

/// Whether the cell at `(col, row)` starts as wall.
pub fn is_wall_cell(col: usize, row: usize) -> (r: bool)
    ensures
        r == spec_is_wall_cell(col as int, row as int),
{
    if col == 0 || row == 0 || col == COLS - 1 || row == ROWS - 1 {
        return true;
    }
    col % 4 == 0 && row % 3 == 0
}


/// Whether a cell lies on the grid.
pub open spec fn on_grid(c: (i32, i32)) -> bool {
    0 <= c.0 < COLS && 0 <= c.1 < ROWS
}

/// The position of an on-grid cell in a row-major scan.
pub open spec fn cell_index(c: (i32, i32)) -> int {
    c.1 * COLS + c.0
}

/// Whether `walls` blocks the cell: a cell off the grid is never a wall.
pub open spec fn spec_is_wall(walls: Seq<bool>, c: (i32, i32)) -> bool {
    on_grid(c) && walls[cell_index(c)]
}

/// The cells that block movement, one flag per grid cell in row-major
/// order.
pub struct WallSet {
    cells: Vec<bool>,
}

impl View for WallSet {
    type V = Seq<bool>;

    closed spec fn view(&self) -> Seq<bool> {
        self.cells@
    }
}

/// A wall set has one flag per grid cell.
pub open spec fn walls_wf(walls: Seq<bool>) -> bool {
    walls.len() == COLS * ROWS
}

/// Row-major positions of on-grid cells stay on the grid and name the cell.
proof fn lemma_cell_index(c: (i32, i32))
    requires
        on_grid(c),
    ensures
        0 <= cell_index(c) < COLS * ROWS,
        cell_index(c) % (COLS as int) == c.0,
        cell_index(c) / (COLS as int) == c.1,
{
    assert(0 <= c.1 * 22 + c.0 < 22 * 14) by (nonlinear_arith)
        requires
            0 <= c.0 < 22,
            0 <= c.1 < 14,
    ;
    assert((c.1 * 22 + c.0) % 22 == c.0 && (c.1 * 22 + c.0) / 22 == c.1) by (nonlinear_arith)
        requires
            0 <= c.0 < 22,
            0 <= c.1 < 14,
    ;
}

impl WallSet {
    /// The starting layout: every cell that `is_wall_cell` marks.
    pub fn initial() -> (w: WallSet)
        ensures
            walls_wf(w@),
            forall|c: (i32, i32)| #[trigger] spec_is_wall(w@, c) == (on_grid(c) && spec_is_wall_cell(c.0 as int, c.1 as int)),
    {
        let mut cells: Vec<bool> = Vec::new();
        let mut row: usize = 0;
        while row < ROWS
            invariant
                row <= ROWS,
                cells@.len() == row * COLS,
                forall|k: int| 0 <= k < cells@.len() ==> #[trigger] cells@[k] == spec_is_wall_cell(k % (COLS as int), k / (COLS as int)),
            decreases ROWS - row,
        {
            let mut col: usize = 0;
            while col < COLS
                invariant
                    row < ROWS,
                    col <= COLS,
                    cells@.len() == row * COLS + col,
                    forall|k: int| 0 <= k < cells@.len() ==> #[trigger] cells@[k] == spec_is_wall_cell(k % (COLS as int), k / (COLS as int)),
                decreases COLS - col,
            {
                let ghost k: int = cells@.len() as int;
                proof {
                    lemma_cell_index((col as i32, row as i32));
                    assert(k == cell_index((col as i32, row as i32)));
                }
                cells.push(is_wall_cell(col, row));
                col = col + 1;
            }
            row = row + 1;
        }
        let w = WallSet { cells };
        proof {
            assert forall|c: (i32, i32)| #[trigger] spec_is_wall(w@, c) == (on_grid(c) && spec_is_wall_cell(c.0 as int, c.1 as int)) by {
                if on_grid(c) {
                    lemma_cell_index(c);
                    assert(w@[cell_index(c)] == spec_is_wall_cell(c.0 as int, c.1 as int));
                }
            }
        }
        w
    }

    /// Whether the cell blocks movement.
    pub fn contains(&self, c: (i32, i32)) -> (r: bool)
        requires
            walls_wf(self@),
        ensures
            r == spec_is_wall(self@, c),
    {
        if c.0 < 0 || c.1 < 0 || c.0 >= COLS as i32 || c.1 >= ROWS as i32 {
            return false;
        }
        proof {
            lemma_cell_index(c);
        }
        self.cells[(c.1 as usize) * COLS + c.0 as usize]
    }

    /// Opens the cell, as destroying its wall does.
    pub fn remove(&mut self, c: (i32, i32))
        requires
            walls_wf(old(self)@),
        ensures
            walls_wf(final(self)@),
            forall|d: (i32, i32)| #[trigger] spec_is_wall(final(self)@, d) == (spec_is_wall(old(self)@, d) && d != c),
    {
        if c.0 < 0 || c.1 < 0 || c.0 >= COLS as i32 || c.1 >= ROWS as i32 {
            return;
        }
        proof {
            lemma_cell_index(c);
        }
        let k: usize = (c.1 as usize) * COLS + c.0 as usize;
        self.cells.set(k, false);
        proof {
            assert forall|d: (i32, i32)| #[trigger] spec_is_wall(final(self)@, d) == (spec_is_wall(old(self)@, d) && d != c) by {
                if on_grid(d) {
                    lemma_cell_index(d);
                    if d != c {
                        assert(cell_index(d) != cell_index(c));
                    }
                }
            }
        }
    }
}

/// One step of the held keys: up and down cancel, as do left and right; a
/// horizontal push wins over a vertical one, so the player moves along one
/// axis only. Returns the new facing and the cell one step that way, or
/// `None` when no direction remains.
pub open spec fn spec_step_target(cell: (i32, i32), up: bool, down: bool, left: bool, right: bool) -> Option<((i32, i32), (i32, i32))> {
    let dx: int = (if right { 1int } else { 0int }) - (if left { 1int } else { 0int });
    let dy: int = (if up { 1int } else { 0int }) - (if down { 1int } else { 0int });
    if dx == 0 && dy == 0 {
        None
    } else {
        let facing: (i32, i32) = if dx != 0 {
            (dx as i32, 0i32)
        } else {
            (0i32, dy as i32)
        };
        Some((facing, ((cell.0 + facing.0) as i32, (cell.1 + facing.1) as i32)))
    }
}

/// The facing and target cell for the held keys, from `cell`.
pub fn step_target(cell: (i32, i32), up: bool, down: bool, left: bool, right: bool) -> (r: Option<((i32, i32), (i32, i32))>)
    requires
        i32::MIN < cell.0 < i32::MAX,
        i32::MIN < cell.1 < i32::MAX,
    ensures
        r == spec_step_target(cell, up, down, left, right),
{
    let mut dx: i32 = 0;
    let mut dy: i32 = 0;
    if up {
        dy = dy + 1;
    }
    if down {
        dy = dy - 1;
    }
    if left {
        dx = dx - 1;
    }
    if right {
        dx = dx + 1;
    }
    if dx == 0 && dy == 0 {
        return None;
    }
    let facing: (i32, i32) = if dx != 0 {
        (dx, 0)
    } else {
        (0, dy)
    };
    Some((facing, (cell.0 + facing.0, cell.1 + facing.1)))
}

/// Moving through the terrain: the facing and target cell of the held keys,
/// with the target kept only when no wall stands there.
pub open spec fn spec_walk(walls: Seq<bool>, cell: (i32, i32), up: bool, down: bool, left: bool, right: bool) -> Option<((i32, i32), Option<(i32, i32)>)> {
    match spec_step_target(cell, up, down, left, right) {
        None => None,
        Some((facing, target)) => Some(
            (
                facing,
                if spec_is_wall(walls, target) {
                    None
                } else {
                    Some(target)
                },
            ),
        ),
    }
}

/// Where the player heads for the held keys: `None` without a direction;
/// otherwise the new facing, and the cell to walk to unless a wall blocks
/// it. Floor cells are walked freely; walls are never entered.
pub fn walk(walls: &WallSet, cell: (i32, i32), up: bool, down: bool, left: bool, right: bool) -> (r: Option<((i32, i32), Option<(i32, i32)>)>)
    requires
        walls_wf(walls@),
        i32::MIN < cell.0 < i32::MAX,
        i32::MIN < cell.1 < i32::MAX,
    ensures
        r == spec_walk(walls@, cell, up, down, left, right),
{
    match step_target(cell, up, down, left, right) {
        None => None,
        Some((facing, target)) => {
            if walls.contains(target) {
                Some((facing, None))
            } else {
                Some((facing, Some(target)))
            }
        },
    }
}

} // verus!
