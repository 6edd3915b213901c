//! The two completion checks: whether a colour's path leaves no segment
//! cell of the colour behind, and whether every junction is saturated.

use vstd::prelude::*;
use crate::symbol::{Color, Symbol};
use crate::direction::{Direction, DirectionInner, pt};
use crate::model::{BoardModel, lemma_idx_in_range, lemma_pos_in_bounds};
use crate::board::Board;

verus! {

/// Slot number `t`, counting four slots per cell, holds an edge of colour
/// `color` one of whose ends is the `k`-th cell.
spec fn ends_at(m: BoardModel, t: int, k: int, color: Color) -> bool {
    let j = t / 4;
    let d = DirectionInner::of_slot(t % 4);
    m.lines[j][t % 4] == Some(color) && (k == j || k == m.idx(d.outward().target(m.pos(j))))
}

/// Some slot below number `upto` holds an edge of the colour that ends at
/// the `k`-th cell.
spec fn swept(m: BoardModel, upto: int, k: int, color: Color) -> bool {
    exists|t: int| 0 <= t < upto && #[trigger] ends_at(m, t, k, color)
}

/// Once every slot has been looked at, the cells found are the touched ones.
proof fn lemma_swept_all(m: BoardModel, k: int, color: Color)
    requires
        m.shaped(),
    ensures
        swept(m, 4 * (m.cells.len() as int), k, color) == m.touched(k, color),
{
    if swept(m, 4 * (m.cells.len() as int), k, color) {
        let t = choose|t: int| 0 <= t < 4 * m.cells.len() && #[trigger] ends_at(m, t, k, color);
        let d = DirectionInner::of_slot(t % 4);
        lemma_pos_in_bounds(m, t / 4);
        assert(m.has_edge(m.pos(t / 4), d, color));
    }
    if m.touched(k, color) {
        let (p, d) = choose|p: (int, int), d: DirectionInner| #[trigger]
            m.has_edge(p, d, color) && (k == m.idx(p) || k == m.idx(d.outward().target(p)));
        lemma_idx_in_range(m, p);
        let t = 4 * m.idx(p) + d.slot();
        assert(DirectionInner::of_slot(t % 4) == d);
        assert(ends_at(m, t, k, color));
    }
}

/// Whether every junction has exactly as many incoming edges as its number.
pub fn white_solved(board: &Board) -> (r: bool)
    ensures
        r == board@.white_solved(),
{
    let mut i: usize = 0;
    while i < board.board.len()
        invariant
            i <= board.board@.len(),
            forall|k: int|
                0 <= k < i ==> ((#[trigger] board@.cells[k]).0 matches Symbol::White(n)
                    ==> board@.cells[k].1 == n),
        decreases board.board@.len() - i,
    {
        let (c, count) = board.board[i];
        if let Symbol::White(n) = c {
            if n != count {
                return false;
            }
        }
        i += 1;
    }
    true
}

/// Whether the colour's edges leave no plain segment cell of the colour
/// untouched. The board is only read.
pub fn color_solved(board: &Board, color: Color) -> (r: bool)
    requires
        board@.wf(),
    ensures
        r == board@.color_closed(color),
{
    let n = board.board.len();
    let mut board_clone: Vec<Symbol> = Vec::new();
    let mut i: usize = 0;
    while i < n
        invariant
            n == board@.cells.len(),
            i <= n,
            board_clone@.len() == i,
            forall|k: int| 0 <= k < i ==> #[trigger] board_clone@[k] == board@.cells[k].0,
        decreases n - i,
    {
        board_clone.push(board.board[i].0);
        i += 1;
    }
    let mut i: usize = 0;
    while i < n
        invariant
            board@.wf(),
            n == board@.cells.len(),
            i <= n,
            board_clone@.len() == n,
            forall|k: int|
                0 <= k < n ==> #[trigger] board_clone@[k] == (if swept(board@, 4 * i, k, color) {
                    Symbol::Empty
                } else {
                    board@.cells[k].0
                }),
        decreases n - i,
    {
        let mut dir: usize = 0;
        while dir < 4
            invariant
                board@.wf(),
                n == board@.cells.len(),
                i < n,
                dir <= 4,
                board_clone@.len() == n,
                forall|k: int|
                    0 <= k < n ==> #[trigger] board_clone@[k] == (if swept(
                        board@,
                        4 * i + dir,
                        k,
                        color,
                    ) {
                        Symbol::Empty
                    } else {
                        board@.cells[k].0
                    }),
            decreases 4 - dir,
        {
            let ghost t = 4 * i + dir;
            let ghost mut found = false;
            if let Some(line_color) = board.lines[i][dir] {
                if line_color == color {
                    let direction: Direction = DirectionInner::from_index(dir as u8).into();
                    let pos = board.pos(i);
                    proof {
                        assert(board@.slot(pt(pos), DirectionInner::of_slot(dir as int)) is Some);
                    }
                    let i2 = board.index(direction.apply_offset(pos));
                    board_clone[i] = Symbol::Empty;
                    board_clone[i2] = Symbol::Empty;
                    proof {
                        assert(ends_at(board@, t, i as int, color));
                        assert(ends_at(board@, t, i2 as int, color));
                        assert forall|k: int| 0 <= k < n && k != i && k != i2 implies !ends_at(
                            board@,
                            t,
                            k,
                            color,
                        ) by {}
                        found = true;
                    }
                }
            }
            proof {
                if !found {
                    assert forall|k: int| 0 <= k < n implies !ends_at(board@, t, k, color) by {}
                }
                assert forall|k: int| 0 <= k < n implies #[trigger] board_clone@[k] == (if swept(
                    board@,
                    t + 1,
                    k,
                    color,
                ) {
                    Symbol::Empty
                } else {
                    board@.cells[k].0
                }) by {
                    if swept(board@, t, k, color) {
                        let w = choose|w: int| 0 <= w < t && #[trigger] ends_at(board@, w, k, color);
                        assert(ends_at(board@, w, k, color));
                    }
                    if swept(board@, t + 1, k, color) {
                        let w = choose|w: int|
                            0 <= w < t + 1 && #[trigger] ends_at(board@, w, k, color);
                        if w < t {
                            assert(swept(board@, t, k, color));
                        }
                    }
                }
            }
            dir += 1;
        }
        i += 1;
    }
    let wanted = Symbol::color(color);
    let mut k: usize = 0;
    while k < n
        invariant
            board@.shaped(),
            n == board@.cells.len(),
            k <= n,
            board_clone@.len() == n,
            wanted == Symbol::segment_of(color),
            forall|j: int|
                0 <= j < n ==> #[trigger] board_clone@[j] == (if swept(board@, 4 * n, j, color) {
                    Symbol::Empty
                } else {
                    board@.cells[j].0
                }),
            forall|j: int|
                0 <= j < k && (#[trigger] board@.cells[j]).0 == Symbol::segment_of(color)
                    ==> board@.touched(j, color),
        decreases n - k,
    {
        proof {
            lemma_swept_all(board@, k as int, color);
        }
        if board_clone[k] == wanted {
            return false;
        }
        k += 1;
    }
    true
}

} // verus!
