//! The board as a mathematical value: cell symbols with their incident
//! counts, the table of occupied edge slots and the log of placed edges,
//! together with the rules that say when an edge may be placed.

use vstd::prelude::*;
use crate::symbol::{Color, Symbol};
use crate::direction::{Direction, DirectionInner, Point, pt};

verus! {

/// One placed edge: where it starts, in which direction it runs, its colour.
pub type Edge = (Point, Direction, Color);

/// The state of a board. Cells are kept row by row; the cell in column `x`
/// of row `y` is `cells[y * width + x]`, and `lines` holds its four slots.
pub struct BoardModel {
    pub width: nat,
    pub height: nat,
    /// Symbol and number of incoming edges of each cell.
    pub cells: Seq<(Symbol, u8)>,
    /// For each cell, the colour of the edge stored under each of the four
    /// stored directions.
    pub lines: Seq<Seq<Option<Color>>>,
    /// The placed edges, oldest first.
    pub log: Seq<Edge>,
}

impl BoardModel {
    /// A board on which nothing has been placed yet.
    pub open spec fn pristine(symbols: Seq<Symbol>, width: nat, height: nat) -> BoardModel {
        BoardModel {
            width,
            height,
            cells: Seq::new(symbols.len(), |i: int| (symbols[i], 0u8)),
            lines: Seq::new(symbols.len(), |i: int| Seq::new(4, |d: int| None::<Color>)),
            log: Seq::empty(),
        }
    }

    pub open spec fn in_bounds(self, p: (int, int)) -> bool {
        0 <= p.0 < self.width && 0 <= p.1 < self.height
    }

    /// Place of the cell at `p` in `cells` and `lines`.
    pub open spec fn idx(self, p: (int, int)) -> int {
        p.1 * self.width + p.0
    }

    /// The position of the `i`-th cell.
    pub open spec fn pos(self, i: int) -> (int, int) {
        (i % (self.width as int), i / (self.width as int))
    }

    pub open spec fn symbol(self, p: (int, int)) -> Symbol {
        self.cells[self.idx(p)].0
    }

    pub open spec fn count(self, p: (int, int)) -> u8 {
        self.cells[self.idx(p)].1
    }

    /// The colour stored at cell `p` under direction `d`, if any.
    pub open spec fn slot(self, p: (int, int), d: DirectionInner) -> Option<Color> {
        self.lines[self.idx(p)][d.slot()]
    }

    /// The sizes of the parts agree, and every position fits a `Point`.
    pub open spec fn shaped(self) -> bool {
        &&& self.width <= i32::MAX
        &&& self.height <= i32::MAX
        &&& self.cells.len() == self.width * self.height
        &&& self.lines.len() == self.cells.len()
        &&& forall|i: int| 0 <= i < self.lines.len() ==> (#[trigger] self.lines[i]).len() == 4
    }

    /// Every stored edge leads to a cell of the grid.
    pub open spec fn edges_in_bounds(self) -> bool {
        forall|p: (int, int), d: DirectionInner|
            self.in_bounds(p) && (#[trigger] self.slot(p, d)) is Some ==> self.in_bounds(
                d.outward().target(p),
            )
    }

    /// Of the two diagonals of a unit square at most one is occupied. The
    /// square is named by its upper left corner `p`.
    pub open spec fn diagonals_exclusive(self) -> bool {
        forall|p: (int, int)|
            self.in_bounds(p) && self.in_bounds((p.0 + 1, p.1 + 1)) ==> !((#[trigger] self.slot(
                p,
                DirectionInner::DownRight,
            )) is Some && self.slot((p.0 + 1, p.1), DirectionInner::DownLeft) is Some)
    }

    /// No junction has more incoming edges than its number.
    pub open spec fn within_capacity(self) -> bool {
        forall|i: int|
            0 <= i < self.cells.len() ==> ((#[trigger] self.cells[i]).0 matches Symbol::White(n)
                ==> self.cells[i].1 <= n)
    }

    /// The invariant of a board.
    pub open spec fn wf(self) -> bool {
        &&& self.shaped()
        &&& self.edges_in_bounds()
        &&& self.diagonals_exclusive()
        &&& self.within_capacity()
    }

    /// The cell at `q` takes one more incoming edge of colour `color`: it is
    /// a junction below its number, or a cell of that colour that no edge
    /// has entered yet.
    pub open spec fn accepts(self, q: (int, int), color: Color) -> bool {
        match self.symbol(q) {
            Symbol::White(n) => self.count(q) < n,
            s => (s == Symbol::segment_of(color) || s == Symbol::endpoint_of(color)) && self.count(
                q,
            ) == 0,
        }
    }

    /// The other diagonal of the square that the step crosses is free.
    pub open spec fn uncrossed(self, p: (int, int), dir: Direction) -> bool {
        dir.rival(p) matches Some(c) ==> self.slot(c.0, c.1) is None
    }

    /// An edge of colour `color` from `pos` in direction `dir` may be placed.
    pub open spec fn legal(self, pos: Point, dir: Direction, color: Color) -> bool {
        let p = pt(pos);
        &&& self.in_bounds(p)
        &&& self.in_bounds(dir.target(p))
        &&& self.uncrossed(p, dir)
        &&& self.accepts(dir.target(p), color)
        &&& self.symbol(dir.home(p)).carries(color)
        &&& self.slot(dir.home(p), dir.inner()) is None
    }

    /// The board after the edge has been placed: its slot holds the colour,
    /// the cell it leads to has one more incoming edge, the log one more entry.
    pub open spec fn with_edge(self, pos: Point, dir: Direction, color: Color) -> BoardModel {
        let q = self.idx(dir.target(pt(pos)));
        let h = self.idx(dir.home(pt(pos)));
        BoardModel {
            cells: self.cells.update(q, (self.cells[q].0, (self.cells[q].1 + 1) as u8)),
            lines: self.lines.update(h, self.lines[h].update(dir.inner().slot(), Some(color))),
            log: self.log.push((pos, dir, color)),
            ..self
        }
    }

    /// What `without_edge` needs: both ends of the edge lie on the grid and
    /// the cell it leads to has an incoming edge to give back.
    pub open spec fn removable(self, pos: Point, dir: Direction) -> bool {
        &&& self.in_bounds(pt(pos))
        &&& self.in_bounds(dir.target(pt(pos)))
        &&& self.count(dir.target(pt(pos))) > 0
    }

    /// The board after the edge from `pos` in direction `dir` has been taken
    /// back: the cell it leads to has one incoming edge less; if its slot was
    /// occupied, the slot is free and the newest log entry is gone.
    pub open spec fn without_edge(self, pos: Point, dir: Direction) -> BoardModel {
        let q = self.idx(dir.target(pt(pos)));
        let h = self.idx(dir.home(pt(pos)));
        let cells = self.cells.update(q, (self.cells[q].0, (self.cells[q].1 - 1) as u8));
        if self.lines[h][dir.inner().slot()] is Some {
            BoardModel {
                cells,
                lines: self.lines.update(h, self.lines[h].update(dir.inner().slot(), None)),
                log: if self.log.len() > 0 {
                    self.log.drop_last()
                } else {
                    self.log
                },
                ..self
            }
        } else {
            BoardModel { cells, ..self }
        }
    }

    /// An edge of colour `color` is stored at `p` under `d`.
    pub open spec fn has_edge(self, p: (int, int), d: DirectionInner, color: Color) -> bool {
        self.in_bounds(p) && self.slot(p, d) == Some(color)
    }

    /// The `i`-th cell is an end of some stored edge of colour `color`.
    pub open spec fn touched(self, i: int, color: Color) -> bool {
        exists|p: (int, int), d: DirectionInner| #[trigger]
            self.has_edge(p, d, color) && (i == self.idx(p) || i == self.idx(
                d.outward().target(p),
            ))
    }

    /// Every plain segment cell of the colour is an end of one of its edges.
    pub open spec fn color_closed(self, color: Color) -> bool {
        forall|i: int|
            0 <= i < self.cells.len() && (#[trigger] self.cells[i]).0 == Symbol::segment_of(color)
                ==> self.touched(i, color)
    }

    /// Every junction has exactly as many incoming edges as its number.
    pub open spec fn white_solved(self) -> bool {
        forall|i: int|
            0 <= i < self.cells.len() ==> ((#[trigger] self.cells[i]).0 matches Symbol::White(n)
                ==> self.cells[i].1 == n)
    }

    /// The `i`-th cell is the first, row by row, that holds the endpoint
    /// marker of `color`.
    pub open spec fn is_start(self, i: int, color: Color) -> bool {
        &&& 0 <= i < self.cells.len()
        &&& self.cells[i].0 == Symbol::endpoint_of(color)
        &&& forall|j: int| 0 <= j < i ==> (#[trigger] self.cells[j]).0 != Symbol::endpoint_of(color)
    }

    /// The colour has an endpoint on the grid.
    pub open spec fn has_start(self, color: Color) -> bool {
        exists|i: int| self.is_start(i, color)
    }

    /// The cell from which the colour's path is searched.
    pub open spec fn start(self, color: Color) -> int {
        choose|i: int| self.is_start(i, color)
    }

    /// No endpoint of a colour of rank `rank` or later has its counter at
    /// the largest value, so each can still take the mark of a path's first
    /// cell.
    pub open spec fn marks_fit(self, rank: nat) -> bool {
        forall|i: int|
            0 <= i < self.cells.len() ==> ((#[trigger] self.cells[i]).0.endpoint_color() matches Some(
                c,
            ) ==> c.rank() >= rank ==> self.cells[i].1 < u8::MAX)
    }

    /// The board after the `i`-th cell has been given one incoming edge that
    /// no slot stands for: the mark of a path's first cell.
    pub open spec fn marked(self, i: int) -> BoardModel {
        BoardModel { cells: self.cells.update(i, (self.cells[i].0, (self.cells[i].1 + 1) as u8)), ..self }
    }
}

/// A position of the grid has a place in the cell sequence.
pub proof fn lemma_idx_in_range(m: BoardModel, p: (int, int))
    requires
        m.shaped(),
        m.in_bounds(p),
    ensures
        0 <= m.idx(p) < m.cells.len(),
        m.pos(m.idx(p)) == p,
{
    let w = m.width as int;
    let h = m.height as int;
    assert(0 <= p.1 * w + p.0 < w * h) by (nonlinear_arith)
        requires
            0 <= p.0 < w,
            0 <= p.1 < h,
    ;
    vstd::arithmetic::div_mod::lemma_fundamental_div_mod_converse(m.idx(p), w, p.1, p.0);
}

/// A place in the cell sequence is the place of its position.
pub proof fn lemma_pos_in_bounds(m: BoardModel, i: int)
    requires
        m.shaped(),
        0 <= i < m.cells.len(),
    ensures
        m.in_bounds(m.pos(i)),
        m.idx(m.pos(i)) == i,
{
    let w = m.width as int;
    let h = m.height as int;
    assert(w > 0) by (nonlinear_arith)
        requires
            0 <= i < w * h,
            w >= 0,
    ;
    vstd::arithmetic::div_mod::lemma_fundamental_div_mod(i, w);
    vstd::arithmetic::div_mod::lemma_mod_bound(i, w);
    assert(0 <= i / w < h) by (nonlinear_arith)
        requires
            0 <= i < w * h,
            w > 0,
            i == w * (i / w) + i % w,
            0 <= i % w < w,
    ;
    assert((i / w) * w == w * (i / w)) by (nonlinear_arith);
}

} // verus!
