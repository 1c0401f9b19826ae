//! Cells of a rectangular board, scanned row by row, and the free cells left
//! by a snake.

use vstd::prelude::*;
use crate::snake::Coord;

verus! {

/// Whether `c` lies on a `w`x`h` board.
pub open spec fn on_board(w: int, h: int, c: Coord) -> bool {
    0 <= c.x < w && 0 <= c.y < h
}

/// The cell visited `k`-th by a row-major scan of a board `w` cells wide.
pub open spec fn cell_at(w: int, k: int) -> Coord {
    Coord { x: (k % w) as i32, y: (k / w) as i32 }
}

/// The position of `c` in a row-major scan of a board `w` cells wide.
pub open spec fn scan_index(w: int, c: Coord) -> int {
    c.y * w + c.x
}

/// The cells among the first `n` of the scan that `body` does not cover, in
/// scan order.
pub open spec fn free_cells(w: int, body: Seq<Coord>, n: nat) -> Seq<Coord>
    decreases n,
{
    if n == 0 {
        Seq::empty()
    } else {
        let prev = free_cells(w, body, (n - 1) as nat);
        let c = cell_at(w, n - 1);
        if body.contains(c) {
            prev
        } else {
            prev.push(c)
        }
    }
}

/// How many cells of `body` come before position `n` of the scan.
pub open spec fn count_before(w: int, body: Seq<Coord>, n: int) -> nat
    decreases body.len(),
{
    if body.len() == 0 {
        0
    } else {
        count_before(w, body.drop_last(), n) + (if scan_index(w, body.last()) < n {
            1nat
        } else {
            0nat
        })
    }
}

/// No cell occurs twice.
pub open spec fn all_distinct(body: Seq<Coord>) -> bool {
    forall|i: int, j: int| 0 <= i < body.len() && 0 <= j < body.len() && i != j ==> body[i] != body[j]
}

/// Every cell lies on the board.
pub open spec fn all_on_board(w: int, h: int, body: Seq<Coord>) -> bool {
    forall|i: int| 0 <= i < body.len() ==> on_board(w, h, #[trigger] body[i])
}

/// The scan visits `(x, y)` at position `y * w + x`.
pub proof fn lemma_cell_at_index(w: int, x: int, y: int)
    requires
        0 <= x < w,
        0 <= y,
        y * w + x <= i32::MAX,
    ensures
        cell_at(w, y * w + x) == (Coord { x: x as i32, y: y as i32 }),
{
    vstd::arithmetic::div_mod::lemma_fundamental_div_mod_converse(y * w + x, w, y, x);
}

/// A cell of a board `w` wide is the cell its scan position names.
pub proof fn lemma_scan_index_cell(w: int, c: Coord)
    requires
        0 <= c.x < w,
        0 <= c.y,
        c.y * w + c.x <= i32::MAX,
    ensures
        cell_at(w, scan_index(w, c)) == c,
{
    lemma_cell_at_index(w, c.x as int, c.y as int);
}

/// The scan of the first `w * h` positions stays on the board.
pub proof fn lemma_cell_at_on_board(w: int, h: int, k: int)
    requires
        0 < w,
        0 <= k < w * h,
        w * h <= i32::MAX,
    ensures
        on_board(w, h, cell_at(w, k)),
        scan_index(w, cell_at(w, k)) == k,
{
    let q = k / w;
    let r = k % w;
    vstd::arithmetic::div_mod::lemma_fundamental_div_mod(k, w);
    vstd::arithmetic::div_mod::lemma_mod_pos_bound(k, w);
    vstd::arithmetic::div_mod::lemma_div_pos_is_pos(k, w);
    assert(q < h) by (nonlinear_arith)
        requires
            k == w * q + r,
            0 <= r,
            k < w * h,
            0 < w,
    ;
    assert(q <= i32::MAX) by (nonlinear_arith)
        requires
            q < h,
            w * h <= i32::MAX,
            0 < w,
    ;
    assert(w * q == q * w) by (nonlinear_arith);
}

/// Every free cell among the first `n` positions is a cell of the scan that
/// the body does not cover.
pub proof fn lemma_free_cells_members(w: int, h: int, body: Seq<Coord>, n: nat)
    requires
        0 < w,
        n <= w * h,
        w * h <= i32::MAX,
    ensures
        forall|i: int|
            0 <= i < free_cells(w, body, n).len() ==> {
                &&& on_board(w, h, #[trigger] free_cells(w, body, n)[i])
                &&& !body.contains(free_cells(w, body, n)[i])
            },
    decreases n,
{
    if n > 0 {
        lemma_free_cells_members(w, h, body, (n - 1) as nat);
        lemma_cell_at_on_board(w, h, n - 1);
        let prev = free_cells(w, body, (n - 1) as nat);
        let cur = free_cells(w, body, n);
        assert forall|i: int| 0 <= i < cur.len() implies {
            &&& on_board(w, h, #[trigger] cur[i])
            &&& !body.contains(cur[i])
        } by {
            if i < prev.len() {
                assert(cur[i] == prev[i]);
            }
        }
    }
}

/// Advancing the scan by one position counts one more body cell exactly when
/// the body covers the cell at that position.
pub proof fn lemma_count_before_step(w: int, h: int, body: Seq<Coord>, n: int)
    requires
        0 < w,
        0 <= n < w * h,
        w * h <= i32::MAX,
        all_distinct(body),
        all_on_board(w, h, body),
    ensures
        count_before(w, body, n + 1) == count_before(w, body, n) + (if body.contains(cell_at(w, n)) {
            1nat
        } else {
            0nat
        }),
    decreases body.len(),
{
    if body.len() > 0 {
        let rest = body.drop_last();
        let last = body.last();
        assert(all_distinct(rest));
        assert(all_on_board(w, h, rest)) by {
            assert forall|i: int| 0 <= i < rest.len() implies on_board(w, h, #[trigger] rest[i]) by {
                assert(rest[i] == body[i]);
            }
        }
        lemma_count_before_step(w, h, rest, n);
        assert(on_board(w, h, body[body.len() - 1]));
        assert(last.y * w + last.x <= i32::MAX) by {
            assert(last.y * w <= (h - 1) * w) by (nonlinear_arith)
                requires
                    last.y <= h - 1,
                    0 < w,
            ;
            assert((h - 1) * w + w == h * w) by (nonlinear_arith);
            vstd::arithmetic::mul::lemma_mul_is_commutative(w, h);
        }
        lemma_scan_index_cell(w, last);
        if scan_index(w, last) == n {
            assert(last == cell_at(w, n));
            assert(body.contains(cell_at(w, n))) by {
                assert(body[body.len() - 1] == last);
            }
            assert(!rest.contains(cell_at(w, n))) by {
                if rest.contains(cell_at(w, n)) {
                    let j = choose|j: int| 0 <= j < rest.len() && rest[j] == cell_at(w, n);
                    assert(body[j] == body[body.len() - 1]);
                }
            }
        } else {
            assert(last != cell_at(w, n)) by {
                if last == cell_at(w, n) {
                    lemma_cell_at_on_board(w, h, n);
                }
            }
            assert(body.contains(cell_at(w, n)) == rest.contains(cell_at(w, n))) by {
                if body.contains(cell_at(w, n)) {
                    let j = choose|j: int| 0 <= j < body.len() && body[j] == cell_at(w, n);
                    assert(j != body.len() - 1);
                    assert(rest[j] == body[j]);
                }
                if rest.contains(cell_at(w, n)) {
                    let j = choose|j: int| 0 <= j < rest.len() && rest[j] == cell_at(w, n);
                    assert(body[j] == rest[j]);
                }
            }
        }
    }
}

/// The free cells and the body cells before position `n` together number `n`.
pub proof fn lemma_free_cells_len(w: int, h: int, body: Seq<Coord>, n: nat)
    requires
        0 < w,
        n <= w * h,
        w * h <= i32::MAX,
        all_distinct(body),
        all_on_board(w, h, body),
    ensures
        free_cells(w, body, n).len() + count_before(w, body, n as int) == n,
    decreases n,
{
    if n == 0 {
        lemma_count_before_zero(w, h, body);
    } else {
        lemma_free_cells_len(w, h, body, (n - 1) as nat);
        lemma_count_before_step(w, h, body, n - 1);
    }
}

/// No body cell comes before the first position.
proof fn lemma_count_before_zero(w: int, h: int, body: Seq<Coord>)
    requires
        0 < w,
        all_on_board(w, h, body),
    ensures
        count_before(w, body, 0) == 0,
    decreases body.len(),
{
    if body.len() > 0 {
        let rest = body.drop_last();
        assert(all_on_board(w, h, rest)) by {
            assert forall|i: int| 0 <= i < rest.len() implies on_board(w, h, #[trigger] rest[i]) by {
                assert(rest[i] == body[i]);
            }
        }
        lemma_count_before_zero(w, h, rest);
        let last = body.last();
        assert(on_board(w, h, body[body.len() - 1]));
        assert(last.y * w >= 0) by (nonlinear_arith)
            requires
                last.y >= 0,
                w > 0,
        ;
    }
}

/// Every body cell comes before the end of the scan.
proof fn lemma_count_before_all(w: int, h: int, body: Seq<Coord>)
    requires
        0 < w,
        all_on_board(w, h, body),
    ensures
        count_before(w, body, w * h) == body.len(),
    decreases body.len(),
{
    if body.len() > 0 {
        let rest = body.drop_last();
        assert(all_on_board(w, h, rest)) by {
            assert forall|i: int| 0 <= i < rest.len() implies on_board(w, h, #[trigger] rest[i]) by {
                assert(rest[i] == body[i]);
            }
        }
        lemma_count_before_all(w, h, rest);
        let last = body.last();
        assert(on_board(w, h, body[body.len() - 1]));
        assert(last.y * w + last.x < w * h) by {
            assert(last.y * w <= (h - 1) * w) by (nonlinear_arith)
                requires
                    last.y <= h - 1,
                    0 < w,
            ;
            assert((h - 1) * w + w == h * w) by (nonlinear_arith);
            vstd::arithmetic::mul::lemma_mul_is_commutative(w, h);
        }
    }
}

/// A body of distinct on-board cells leaves exactly `w * h - len` free cells.
pub proof fn lemma_free_cells_total(w: int, h: int, body: Seq<Coord>)
    requires
        0 < w,
        0 < h,
        w * h <= i32::MAX,
        all_distinct(body),
        all_on_board(w, h, body),
    ensures
        free_cells(w, body, (w * h) as nat).len() == w * h - body.len(),
{
    assert(w * h > 0) by (nonlinear_arith)
        requires
            0 < w,
            0 < h,
    ;
    lemma_free_cells_len(w, h, body, (w * h) as nat);
    lemma_count_before_all(w, h, body);
}

/// The free cells before `n + 1` are those before `n`, plus the cell at `n`
/// when the body does not cover it.
pub proof fn lemma_free_cells_unfold(w: int, body: Seq<Coord>, n: nat)
    ensures
        free_cells(w, body, n + 1) == (if body.contains(cell_at(w, n as int)) {
            free_cells(w, body, n)
        } else {
            free_cells(w, body, n).push(cell_at(w, n as int))
        }),
{
}

} // verus!
