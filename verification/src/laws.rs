//! What holds of every board: placing and taking back edges keeps the
//! invariant, and taking back undoes placing.

use vstd::prelude::*;
use crate::symbol::{Color, Symbol};
use crate::direction::{Direction, DirectionInner, Point, pt};
use crate::model::{BoardModel, lemma_idx_in_range};

verus! {

/// Placing a legal edge keeps the invariant: the edge lies on the grid, it
/// crosses no occupied diagonal, and no junction gets more incoming edges
/// than its number.
pub proof fn lemma_with_edge_wf(m: BoardModel, pos: Point, dir: Direction, color: Color)
    requires
        m.wf(),
        m.legal(pos, dir, color),
    ensures
        m.with_edge(pos, dir, color).wf(),
{
    let m2 = m.with_edge(pos, dir, color);
    let p = pt(pos);
    let home = dir.home(p);
    lemma_idx_in_range(m, p);
    lemma_idx_in_range(m, dir.target(p));
    lemma_idx_in_range(m, home);
    assert(m2.shaped());
    assert forall|a: (int, int), d: DirectionInner|
        m2.in_bounds(a) && (#[trigger] m2.slot(a, d)) is Some implies m2.in_bounds(
        d.outward().target(a),
    ) by {
        lemma_idx_in_range(m, a);
        if m.idx(a) == m.idx(home) && d == dir.inner() {
            assert(a == home);
        } else {
            assert(m2.slot(a, d) == m.slot(a, d));
        }
    }
    assert forall|a: (int, int)|
        m2.in_bounds(a) && m2.in_bounds((a.0 + 1, a.1 + 1)) implies !((#[trigger] m2.slot(
        a,
        DirectionInner::DownRight,
    )) is Some && m2.slot((a.0 + 1, a.1), DirectionInner::DownLeft) is Some) by {
        let b = (a.0 + 1, a.1);
        lemma_idx_in_range(m, a);
        lemma_idx_in_range(m, b);
        assert(m.slot(a, DirectionInner::DownRight) is None || m.slot(
            b,
            DirectionInner::DownLeft,
        ) is None);
        if m.idx(a) == m.idx(home) && dir.inner() == DirectionInner::DownRight {
            assert(a == home);
            assert(m2.slot(b, DirectionInner::DownLeft) == m.slot(b, DirectionInner::DownLeft));
        } else if m.idx(b) == m.idx(home) && dir.inner() == DirectionInner::DownLeft {
            assert(b == home);
            assert(m2.slot(a, DirectionInner::DownRight) == m.slot(a, DirectionInner::DownRight));
        } else {
            assert(m2.slot(a, DirectionInner::DownRight) == m.slot(a, DirectionInner::DownRight));
            assert(m2.slot(b, DirectionInner::DownLeft) == m.slot(b, DirectionInner::DownLeft));
        }
    }
    assert(m2.within_capacity());
}

/// Taking an edge back keeps the invariant.
pub proof fn lemma_without_edge_wf(m: BoardModel, pos: Point, dir: Direction)
    requires
        m.wf(),
        m.removable(pos, dir),
    ensures
        m.without_edge(pos, dir).wf(),
{
    let m2 = m.without_edge(pos, dir);
    let p = pt(pos);
    let home = dir.home(p);
    lemma_idx_in_range(m, p);
    lemma_idx_in_range(m, dir.target(p));
    lemma_idx_in_range(m, home);
    assert(m2.shaped());
    assert forall|a: (int, int), d: DirectionInner|
        m2.in_bounds(a) && (#[trigger] m2.slot(a, d)) is Some implies m2.in_bounds(
        d.outward().target(a),
    ) by {
        lemma_idx_in_range(m, a);
        assert(m.slot(a, d) is Some);
    }
    assert forall|a: (int, int)|
        m2.in_bounds(a) && m2.in_bounds((a.0 + 1, a.1 + 1)) implies !((#[trigger] m2.slot(
        a,
        DirectionInner::DownRight,
    )) is Some && m2.slot((a.0 + 1, a.1), DirectionInner::DownLeft) is Some) by {
        let b = (a.0 + 1, a.1);
        lemma_idx_in_range(m, a);
        lemma_idx_in_range(m, b);
        assert(m.slot(a, DirectionInner::DownRight) is None || m.slot(
            b,
            DirectionInner::DownLeft,
        ) is None);
    }
    assert(m2.within_capacity());
}

/// Placing a legal edge and taking it back gives the board from before:
/// every count, every slot and the log.
pub proof fn lemma_add_remove_inverse(m: BoardModel, pos: Point, dir: Direction, color: Color)
    requires
        m.wf(),
        m.legal(pos, dir, color),
    ensures
        m.with_edge(pos, dir, color).removable(pos, dir),
        m.with_edge(pos, dir, color).without_edge(pos, dir) == m,
{
    let m2 = m.with_edge(pos, dir, color);
    let m3 = m2.without_edge(pos, dir);
    let p = pt(pos);
    lemma_idx_in_range(m, p);
    lemma_idx_in_range(m, dir.target(p));
    lemma_idx_in_range(m, dir.home(p));
    let h = m.idx(dir.home(p));
    let d = dir.inner().slot();
    assert(m2.lines[h][d] is Some);
    assert(m3.cells =~= m.cells);
    assert(m3.lines[h] =~= m.lines[h]);
    assert(m3.lines =~= m.lines);
    assert(m3.log =~= m.log);
}

/// Placing an edge of a colour leaves the endpoints of the later colours
/// as they were.
pub proof fn lemma_with_edge_keeps_marks(m: BoardModel, pos: Point, dir: Direction, color: Color)
    requires
        m.wf(),
        m.legal(pos, dir, color),
        m.marks_fit(color.rank() + 1),
    ensures
        m.with_edge(pos, dir, color).marks_fit(color.rank() + 1),
{
    lemma_idx_in_range(m, dir.target(pt(pos)));
}

/// The two boards are of one grid: the same sizes, the same symbols.
pub open spec fn same_grid(a: BoardModel, b: BoardModel) -> bool {
    &&& a.width == b.width
    &&& a.height == b.height
    &&& a.cells.len() == b.cells.len()
    &&& forall|i: int| 0 <= i < a.cells.len() ==> (#[trigger] a.cells[i]).0 == b.cells[i].0
}

/// Every edge stored on `a` is stored on `b`, with its colour.
pub open spec fn keeps_edges(a: BoardModel, b: BoardModel) -> bool {
    forall|p: (int, int), d: DirectionInner|
        a.in_bounds(p) && (#[trigger] a.slot(p, d)) is Some ==> b.slot(p, d) == a.slot(p, d)
}

/// A colour that is closed stays closed when edges are added.
pub proof fn lemma_closed_stays(a: BoardModel, b: BoardModel, color: Color)
    requires
        same_grid(a, b),
        keeps_edges(a, b),
        a.color_closed(color),
    ensures
        b.color_closed(color),
{
    assert forall|i: int|
        0 <= i < b.cells.len() && (#[trigger] b.cells[i]).0 == Symbol::segment_of(
            color,
        ) implies b.touched(i, color) by {
        assert(a.cells[i].0 == Symbol::segment_of(color));
        assert(a.touched(i, color));
        let (p, d) = choose|p: (int, int), d: DirectionInner| #[trigger]
            a.has_edge(p, d, color) && (i == a.idx(p) || i == a.idx(d.outward().target(p)));
        assert(a.slot(p, d) is Some);
        assert(b.has_edge(p, d, color));
    }
}

/// Placing a legal edge changes neither sizes nor symbols and frees no slot.
pub proof fn lemma_with_edge_frame(m: BoardModel, pos: Point, dir: Direction, color: Color)
    requires
        m.wf(),
        m.legal(pos, dir, color),
    ensures
        same_grid(m, m.with_edge(pos, dir, color)),
        keeps_edges(m, m.with_edge(pos, dir, color)),
        m.with_edge(pos, dir, color).slot(dir.home(pt(pos)), dir.inner()) == Some(color),
{
    let m2 = m.with_edge(pos, dir, color);
    lemma_idx_in_range(m, dir.target(pt(pos)));
    lemma_idx_in_range(m, dir.home(pt(pos)));
    assert forall|p: (int, int), d: DirectionInner|
        m.in_bounds(p) && (#[trigger] m.slot(p, d)) is Some implies m2.slot(p, d) == m.slot(
        p,
        d,
    ) by {
        lemma_idx_in_range(m, p);
    }
}

/// Marking a colour's first endpoint keeps the invariant, the grid and
/// every stored edge.
pub proof fn lemma_marked_frame(m: BoardModel, i: int, color: Color)
    requires
        m.wf(),
        m.is_start(i, color),
    ensures
        m.marked(i).wf(),
        same_grid(m, m.marked(i)),
        keeps_edges(m, m.marked(i)),
        m.marked(i).lines == m.lines,
{
    let m2 = m.marked(i);
    assert forall|a: (int, int), d: DirectionInner|
        m2.in_bounds(a) && (#[trigger] m2.slot(a, d)) is Some implies m2.in_bounds(
        d.outward().target(a),
    ) by {
        assert(m.slot(a, d) is Some);
    }
    assert forall|a: (int, int)|
        m2.in_bounds(a) && m2.in_bounds((a.0 + 1, a.1 + 1)) implies !((#[trigger] m2.slot(
        a,
        DirectionInner::DownRight,
    )) is Some && m2.slot((a.0 + 1, a.1), DirectionInner::DownLeft) is Some) by {
        assert(m.slot(a, DirectionInner::DownRight) is None || m.slot(
            (a.0 + 1, a.1),
            DirectionInner::DownLeft,
        ) is None);
    }
}

/// Marking the first endpoint of a colour raises its count by one and
/// leaves the endpoints of the later colours as they were.
pub proof fn lemma_marked_keeps_marks(m: BoardModel, i: int, color: Color)
    requires
        m.is_start(i, color),
        m.marks_fit(color.rank()),
    ensures
        m.marked(i).marks_fit(color.rank() + 1),
        m.marked(i).cells[i].1 == m.cells[i].1 + 1,
{
    assert(m.cells[i].0.endpoint_color() == Some(color));
}

/// Boards of one grid agree on where each colour's path starts.
pub proof fn lemma_same_grid_start(a: BoardModel, b: BoardModel, color: Color)
    requires
        same_grid(a, b),
    ensures
        a.has_start(color) == b.has_start(color),
        a.has_start(color) ==> a.start(color) == b.start(color),
{
    assert forall|i: int| a.is_start(i, color) == b.is_start(i, color) by {
        if a.is_start(i, color) {
            assert(a.cells[i].0 == b.cells[i].0);
            assert forall|j: int| 0 <= j < i implies (#[trigger] b.cells[j]).0
                != Symbol::endpoint_of(color) by {
                assert(a.cells[j].0 == b.cells[j].0);
            }
        }
        if b.is_start(i, color) {
            assert(a.cells[i].0 == b.cells[i].0);
            assert forall|j: int| 0 <= j < i implies (#[trigger] a.cells[j]).0
                != Symbol::endpoint_of(color) by {
                assert(a.cells[j].0 == b.cells[j].0);
            }
        }
    }
    if a.has_start(color) {
        let i = a.start(color);
        assert(a.is_start(i, color));
        assert(b.is_start(i, color));
        let j = b.start(color);
        assert(b.is_start(j, color));
        if i < j {
            assert(b.cells[i].0 != Symbol::endpoint_of(color));
        }
        if j < i {
            assert(a.cells[j].0 == b.cells[j].0);
        }
    }
    if b.has_start(color) {
        let j = b.start(color);
        assert(b.is_start(j, color));
        assert(a.is_start(j, color));
    }
}

} // verus!
