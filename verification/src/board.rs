//! The board that the search works on, with checked placing and taking back
//! of edges.

use vstd::prelude::*;
use crate::symbol::{Color, Symbol};
use crate::direction::{Direction, DirectionInner, Point, pt};
use crate::model::{BoardModel, Edge, lemma_idx_in_range, lemma_pos_in_bounds};
use crate::laws::{lemma_with_edge_wf, lemma_without_edge_wf};

verus! {

/// A puzzle board: the grid of symbols with the number of edges that have
/// entered each cell, the occupied edge slots, and the placed edges in the
/// order in which they were placed.
#[derive(Debug, Clone, PartialEq, Eq)]
pub struct Board {
    pub(crate) board: Vec<(Symbol, u8)>,
    pub(crate) width: usize,
    pub(crate) height: usize,
    pub(crate) lines: Vec<[Option<Color>; 4]>,
    pub(crate) result: Vec<Edge>,
}

impl View for Board {
    type V = BoardModel;

    open(crate) spec fn view(&self) -> BoardModel {
        BoardModel {
            width: self.width as nat,
            height: self.height as nat,
            cells: self.board@,
            lines: Seq::new(self.lines@.len(), |i: int| self.lines@[i]@),
            log: self.result@,
        }
    }
}

impl Board {
    /// A board on which nothing has been placed, from the symbols of the
    /// grid row by row. `None` where the number of symbols is not
    /// `width * height`, or where a side is too long for a `Point`.
    pub fn new(symbols: Vec<Symbol>, width: usize, height: usize) -> (r: Option<Board>)
        ensures
            r is Some <==> symbols@.len() == width * height && width <= i32::MAX && height
                <= i32::MAX,
            r matches Some(b) ==> b@ == BoardModel::pristine(symbols@, width as nat, height as nat)
                && b@.wf(),
    {
        if width > i32::MAX as usize || height > i32::MAX as usize {
            return None;
        }
        assert(width * height <= 0x7fff_ffff * 0x7fff_ffff) by (nonlinear_arith)
            requires
                width <= 0x7fff_ffff,
                height <= 0x7fff_ffff,
        ;
        if (width as u64) * (height as u64) != symbols.len() as u64 {
            return None;
        }
        let mut board: Vec<(Symbol, u8)> = Vec::new();
        let mut lines: Vec<[Option<Color>; 4]> = Vec::new();
        let mut i: usize = 0;
        while i < symbols.len()
            invariant
                i <= symbols.len(),
                board@.len() == i,
                lines@.len() == i,
                forall|k: int| 0 <= k < i ==> #[trigger] board@[k] == (symbols@[k], 0u8),
                forall|k: int, d: int| 0 <= k < i && 0 <= d < 4 ==> (#[trigger] lines@[k]@[d]) is None,
            decreases symbols.len() - i,
        {
            board.push((symbols[i], 0));
            lines.push([None;4]);
            i += 1;
        }
        let b = Board { board, width, height, lines, result: Vec::new() };
        proof {
            let m = BoardModel::pristine(symbols@, width as nat, height as nat);
            assert(b@.cells =~= m.cells);
            assert forall|k: int| 0 <= k < b@.lines.len() implies #[trigger] b@.lines[k]
                == m.lines[k] by {
                assert(b@.lines[k] =~= m.lines[k]);
            }
            assert(b@.lines =~= m.lines);
            assert(b@.log =~= m.log);
            assert(b@ == m);
            assert forall|p: (int, int), d: DirectionInner| b@.in_bounds(p) implies (#[trigger] b@.slot(
                p,
                d,
            )) is None by {
                lemma_idx_in_range(b@, p);
            }
        }
        Some(b)
    }

    /// Whether `pos` names a cell of the grid.
    pub fn contains(&self, pos: Point) -> (r: bool)
        requires
            self@.shaped(),
        ensures
            r == self@.in_bounds(pt(pos)),
    {
        pos.0 >= 0 && pos.0 < self.width as i32 && pos.1 >= 0 && pos.1 < self.height as i32
    }

    /// Place of the cell at `pos` in the row-by-row order of the cells.
    pub fn index(&self, pos: Point) -> (i: usize)
        requires
            self@.shaped(),
            self@.in_bounds(pt(pos)),
        ensures
            i == self@.idx(pt(pos)),
            i < self@.cells.len(),
    {
        let cells = self.board.len();
        let row = pos.1 as usize;
        let column = pos.0 as usize;
        proof {
            lemma_idx_in_range(self@, pt(pos));
            assert(0 <= row * self.width <= row * self.width + column);
            assert(row * self.width + column == self@.idx(pt(pos)));
            assert(self@.idx(pt(pos)) < cells);
        }
        row * self.width + column
    }

    /// The position of the cell at place `index`.
    pub fn pos(&self, index: usize) -> (p: Point)
        requires
            self@.shaped(),
            index < self@.cells.len(),
        ensures
            pt(p) == self@.pos(index as int),
            self@.in_bounds(pt(p)),
            self@.idx(pt(p)) == index,
    {
        proof {
            lemma_pos_in_bounds(self@, index as int);
        }
        ((index % self.width) as i32, (index / self.width) as i32)
    }

    /// Places the edge of colour `color` that runs from `start_pos` in
    /// `direction`, if that is legal, and says whether it did. A refused edge
    /// leaves the board as it was.
    pub fn add_line(&mut self, start_pos: Point, direction: Direction, color: Color) -> (ok: bool)
        requires
            old(self)@.wf(),
        ensures
            ok == old(self)@.legal(start_pos, direction, color),
            ok ==> final(self)@ == old(self)@.with_edge(start_pos, direction, color),
            !ok ==> final(self)@ == old(self)@,
            final(self)@.wf(),
    {
        if !self.contains(start_pos) {
            return false;
        }
        let offset_pos = direction.apply_offset(start_pos);
        if !self.contains(offset_pos) {
            // line is out of bounds
            return false;
        }
        if let Some((conflict_point, direction_inner)) = direction.may_conflict(start_pos) {
            if self.lines[self.index(conflict_point)][direction_inner.index()].is_some() {
                // crossing with the other beveled edge
                return false;
            }
        }
        let offset_index = self.index(offset_pos);
        let offset_point = self.board[offset_index];
        if let Symbol::White(n) = offset_point.0 {
            if offset_point.1 >= n {
                // point reach to max number of lines
                return false;
            }
        } else if offset_point.0 == Symbol::color(color) || offset_point.0 == Symbol::color_end(
            color,
        ) {
            if offset_point.1 > 0 {
                // point already connected
                return false;
            }
        } else {
            // color mismatch
            return false;
        }
        let (store_pos, direction_inner) = direction.store(start_pos);
        let index = self.index(store_pos);
        let point = self.board[index];
        if !(point.0 == Symbol::color(color) || point.0 == Symbol::color_end(color) || matches!(
            point.0,
            Symbol::White(_)
        )) {
            // color mismatch
            return false;
        }
        let slot = direction_inner.index();
        if self.lines[index][slot].is_some() {
            // line already exists
            return false;
        }
        self.lines[index][slot] = Some(color);
        self.board[offset_index].1 += 1;
        self.result.push((start_pos, direction, color));
        proof {
            let m = old(self)@;
            let m2 = m.with_edge(start_pos, direction, color);
            assert(self@.lines[index as int] =~= m2.lines[index as int]);
            assert(self@.lines =~= m2.lines);
            assert(self@.cells =~= m2.cells);
            assert(self@ == m2);
            lemma_with_edge_wf(m, start_pos, direction, color);
        }
        true
    }

    /// Takes back the edge that runs from `start_pos` in `direction`: the
    /// cell it leads to loses one incoming edge; then, if the edge's slot is
    /// free, nothing more happens and the answer is `false`; else the slot is
    /// freed and the newest entry leaves the log.
    pub fn remove_line(&mut self, start_pos: Point, direction: Direction) -> (ok: bool)
        requires
            old(self)@.wf(),
            old(self)@.removable(start_pos, direction),
        ensures
            ok == old(self)@.slot(direction.home(pt(start_pos)), direction.inner()) is Some,
            final(self)@ == old(self)@.without_edge(start_pos, direction),
            final(self)@.wf(),
    {
        proof {
            lemma_without_edge_wf(old(self)@, start_pos, direction);
        }
        let offset_index = self.index(direction.apply_offset(start_pos));
        self.board[offset_index].1 -= 1;
        let (store_pos, direction_inner) = direction.store(start_pos);
        let store_index = self.index(store_pos);
        let slot = direction_inner.index();
        if self.lines[store_index][slot].is_none() {
            proof {
                assert(self@.lines =~= old(self)@.lines);
                assert(self@.cells =~= old(self)@.without_edge(start_pos, direction).cells);
            }
            return false;
        }
        self.lines[store_index][slot] = None;
        self.result.pop();
        proof {
            let m2 = old(self)@.without_edge(start_pos, direction);
            assert(self@.lines[store_index as int] =~= m2.lines[store_index as int]);
            assert(self@.lines =~= m2.lines);
            assert(self@.cells =~= m2.cells);
            assert(self@.log =~= m2.log);
        }
        true
    }

    /// The number of columns.
    pub fn width(&self) -> (w: usize)
        ensures
            w == self@.width,
    {
        self.width
    }

    /// The number of rows.
    pub fn height(&self) -> (h: usize)
        ensures
            h == self@.height,
    {
        self.height
    }

    /// The symbol of the cell at `pos` and the number of edges that have
    /// entered it; `None` off the grid.
    pub fn cell(&self, pos: Point) -> (r: Option<(Symbol, u8)>)
        requires
            self@.shaped(),
        ensures
            r == if self@.in_bounds(pt(pos)) {
                Some(self@.cells[self@.idx(pt(pos))])
            } else {
                None
            },
    {
        if self.contains(pos) {
            Some(self.board[self.index(pos)])
        } else {
            None
        }
    }

    /// The colour of the edge that joins the cell at `pos` with its
    /// neighbour in `direction`, whichever of the two it was placed from;
    /// `None` where there is no such edge or one of the two cells is off
    /// the grid.
    pub fn line(&self, pos: Point, direction: Direction) -> (r: Option<Color>)
        requires
            self@.shaped(),
        ensures
            r == if self@.in_bounds(pt(pos)) && self@.in_bounds(direction.target(pt(pos))) {
                self@.slot(direction.home(pt(pos)), direction.inner())
            } else {
                None
            },
    {
        if !self.contains(pos) {
            return None;
        }
        if !self.contains(direction.apply_offset(pos)) {
            return None;
        }
        let (store_pos, direction_inner) = direction.store(pos);
        self.lines[self.index(store_pos)][direction_inner.index()]
    }

    /// The placed edges, oldest first.
    pub fn edges(&self) -> (r: &Vec<Edge>)
        ensures
            r@ == self@.log,
    {
        &self.result
    }
}

} // verus!
