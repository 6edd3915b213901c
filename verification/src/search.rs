//! What the search looks for, stated without the search: the runs of edges
//! that complete a board, and the order in which the search meets them.

use vstd::prelude::*;
use crate::symbol::{Color, Symbol};
use crate::direction::{Direction, Point, pt};
use crate::model::{BoardModel, Edge, lemma_idx_in_range};

verus! {

/// How many colours are still to be solved, counting `next` itself.
pub open spec fn colors_left(next: Option<Color>) -> nat {
    match next {
        None => 0,
        Some(c) => (3 - c.rank()) as nat,
    }
}

/// The edges `ext`, placed one after the other, continue the path of colour
/// `color` from the cell `p` to an endpoint of the colour, close the colour
/// there, and then solve the colours after it, which leaves the board `fin`.
///
/// Each edge starts where the one before it led, is legal on the board it is
/// placed on, and the path stops at the first endpoint it enters.
pub open spec fn path_solves(
    m: BoardModel,
    p: (int, int),
    color: Color,
    ext: Seq<Edge>,
    fin: BoardModel,
) -> bool
    decreases ext.len(), 0nat,
{
    ext.len() > 0 && {
        let e = ext[0];
        let placed = m.with_edge(e.0, e.1, color);
        &&& pt(e.0) == p
        &&& e.2 == color
        &&& m.legal(e.0, e.1, color)
        &&& if m.symbol(e.1.target(p)) == Symbol::endpoint_of(color) {
            placed.color_closed(color) && rest_solves(
                placed,
                color.successor(),
                ext.drop_first(),
                fin,
            )
        } else {
            path_solves(placed, e.1.target(p), color, ext.drop_first(), fin)
        }
    }
}

/// The edges `ext` solve the colours from `next` on, in their order, and
/// leave the board `fin`.
///
/// A colour without an endpoint on the grid is passed over. The path of any
/// other starts at the colour's first endpoint, which is marked with one
/// incoming edge. When no colour is left, every junction must be saturated.
pub open spec fn rest_solves(
    m: BoardModel,
    next: Option<Color>,
    ext: Seq<Edge>,
    fin: BoardModel,
) -> bool
    decreases ext.len(), 1 + colors_left(next),
{
    match next {
        None => ext.len() == 0 && m.white_solved() && fin == m,
        Some(c) => if m.has_start(c) {
            path_solves(m.marked(m.start(c)), m.pos(m.start(c)), c, ext, fin)
        } else {
            rest_solves(m, c.successor(), ext, fin)
        },
    }
}

/// The run `a` is met by the search no later than the run `b`: where the two
/// first differ in direction, `a` takes the direction that is tried first.
pub open spec fn no_later(a: Seq<Edge>, b: Seq<Edge>) -> bool
    decreases a.len(),
{
    if a.len() == 0 {
        true
    } else if b.len() == 0 {
        false
    } else if a[0].1.order() != b[0].1.order() {
        a[0].1.order() < b[0].1.order()
    } else {
        no_later(a.drop_first(), b.drop_first())
    }
}

/// Some run of edges continues the path from `p` to a solved board.
pub open spec fn path_solvable(m: BoardModel, p: (int, int), color: Color) -> bool {
    exists|ext: Seq<Edge>, fin: BoardModel| path_solves(m, p, color, ext, fin)
}

/// `ext` continues the path from `p` to the solved board `fin`, and no
/// other such run is met earlier by the search.
pub open spec fn first_path(
    m: BoardModel,
    p: (int, int),
    color: Color,
    ext: Seq<Edge>,
    fin: BoardModel,
) -> bool {
    &&& path_solves(m, p, color, ext, fin)
    &&& forall|other: Seq<Edge>, end: BoardModel| #[trigger]
        path_solves(m, p, color, other, end) ==> no_later(ext, other)
}

/// Some run of edges solves the colours from `next` on.
pub open spec fn rest_solvable(m: BoardModel, next: Option<Color>) -> bool {
    exists|ext: Seq<Edge>, fin: BoardModel| rest_solves(m, next, ext, fin)
}

/// `ext` solves the colours from `next` on and leaves `fin`, and no other
/// such run is met earlier by the search.
pub open spec fn first_rest(
    m: BoardModel,
    next: Option<Color>,
    ext: Seq<Edge>,
    fin: BoardModel,
) -> bool {
    &&& rest_solves(m, next, ext, fin)
    &&& forall|other: Seq<Edge>, end: BoardModel| #[trigger]
        rest_solves(m, next, other, end) ==> no_later(ext, other)
}

/// The number of free slots among the first `t`, counting four per cell.
pub open spec fn free_below(lines: Seq<Seq<Option<Color>>>, t: int) -> nat
    decreases t,
{
    if t <= 0 {
        0
    } else {
        free_below(lines, t - 1) + if lines[(t - 1) / 4][(t - 1) % 4] is None {
            1nat
        } else {
            0nat
        }
    }
}

/// The number of free slots of the board: what the search has left to try.
pub open spec fn free_slots(m: BoardModel) -> nat {
    free_below(m.lines, 4 * (m.lines.len() as int))
}

proof fn lemma_free_below_fill(
    lines: Seq<Seq<Option<Color>>>,
    h: int,
    d: int,
    color: Color,
    t: int,
)
    requires
        0 <= h < lines.len(),
        0 <= d < 4,
        lines[h].len() == 4,
        lines[h][d] is None,
        0 <= t <= 4 * lines.len(),
    ensures
        free_below(lines.update(h, lines[h].update(d, Some(color))), t) + (if 4 * h + d < t {
            1nat
        } else {
            0nat
        }) == free_below(lines, t),
    decreases t,
{
    if t > 0 {
        lemma_free_below_fill(lines, h, d, color, t - 1);
    }
}

/// Placing an edge uses up one free slot.
pub proof fn lemma_with_edge_fills(m: BoardModel, pos: Point, dir: Direction, color: Color)
    requires
        m.wf(),
        m.legal(pos, dir, color),
    ensures
        free_slots(m.with_edge(pos, dir, color)) + 1 == free_slots(m),
{
    lemma_idx_in_range(m, dir.home(pt(pos)));
    lemma_free_below_fill(
        m.lines,
        m.idx(dir.home(pt(pos))),
        dir.inner().slot(),
        color,
        4 * (m.lines.len() as int),
    );
}

/// The log of the board that a solving run leaves is the log from before
/// with the run behind it.
pub proof fn lemma_path_extends_log(
    m: BoardModel,
    p: (int, int),
    color: Color,
    ext: Seq<Edge>,
    fin: BoardModel,
)
    requires
        path_solves(m, p, color, ext, fin),
    ensures
        fin.log == m.log + ext,
    decreases ext.len(), 0nat,
{
    let e = ext[0];
    let placed = m.with_edge(e.0, e.1, color);
    if m.symbol(e.1.target(p)) == Symbol::endpoint_of(color) {
        lemma_rest_extends_log(placed, color.successor(), ext.drop_first(), fin);
    } else {
        lemma_path_extends_log(placed, e.1.target(p), color, ext.drop_first(), fin);
    }
    assert(fin.log =~= m.log + ext);
}

/// The same for a run that solves the colours from `next` on.
pub proof fn lemma_rest_extends_log(
    m: BoardModel,
    next: Option<Color>,
    ext: Seq<Edge>,
    fin: BoardModel,
)
    requires
        rest_solves(m, next, ext, fin),
    ensures
        fin.log == m.log + ext,
    decreases ext.len(), 1 + colors_left(next),
{
    match next {
        None => {
            assert(fin.log =~= m.log + ext);
        },
        Some(c) => {
            if m.has_start(c) {
                lemma_path_extends_log(m.marked(m.start(c)), m.pos(m.start(c)), c, ext, fin);
            } else {
                lemma_rest_extends_log(m, c.successor(), ext, fin);
            }
        },
    }
}

/// Solving from a colour that has an endpoint is continuing its path from
/// the marked first endpoint.
pub proof fn lemma_rest_starts_path(m: BoardModel, c: Color)
    requires
        m.has_start(c),
    ensures
        rest_solvable(m, Some(c)) == path_solvable(m.marked(m.start(c)), m.pos(m.start(c)), c),
        forall|ext: Seq<Edge>, fin: BoardModel| #[trigger]
            first_path(m.marked(m.start(c)), m.pos(m.start(c)), c, ext, fin) ==> first_rest(
                m,
                Some(c),
                ext,
                fin,
            ),
{
    let marked = m.marked(m.start(c));
    let p = m.pos(m.start(c));
    assert forall|ext: Seq<Edge>, fin: BoardModel|
        rest_solves(m, Some(c), ext, fin) == path_solves(marked, p, c, ext, fin) by {}
    if rest_solvable(m, Some(c)) {
        let (ext, fin) = choose|ext: Seq<Edge>, fin: BoardModel| rest_solves(m, Some(c), ext, fin);
        assert(path_solves(marked, p, c, ext, fin));
    }
    if path_solvable(marked, p, c) {
        let (ext, fin) = choose|ext: Seq<Edge>, fin: BoardModel| path_solves(marked, p, c, ext, fin);
        assert(rest_solves(m, Some(c), ext, fin));
    }
    assert forall|ext: Seq<Edge>, fin: BoardModel| #[trigger]
        first_path(marked, p, c, ext, fin) implies first_rest(m, Some(c), ext, fin) by {
        assert(rest_solves(m, Some(c), ext, fin));
        assert forall|other: Seq<Edge>, end: BoardModel| #[trigger]
            rest_solves(m, Some(c), other, end) implies no_later(ext, other) by {
            assert(path_solves(marked, p, c, other, end));
        }
    }
}

/// Solving from a colour that has no endpoint is solving from the next.
pub proof fn lemma_rest_passes_over(m: BoardModel, c: Color)
    requires
        !m.has_start(c),
    ensures
        rest_solvable(m, Some(c)) == rest_solvable(m, c.successor()),
        forall|ext: Seq<Edge>, fin: BoardModel| #[trigger]
            first_rest(m, c.successor(), ext, fin) ==> first_rest(m, Some(c), ext, fin),
{
    assert forall|ext: Seq<Edge>, fin: BoardModel|
        rest_solves(m, Some(c), ext, fin) == rest_solves(m, c.successor(), ext, fin) by {}
    if rest_solvable(m, Some(c)) {
        let (ext, fin) = choose|ext: Seq<Edge>, fin: BoardModel| rest_solves(m, Some(c), ext, fin);
        assert(rest_solves(m, c.successor(), ext, fin));
    }
    if rest_solvable(m, c.successor()) {
        let (ext, fin) = choose|ext: Seq<Edge>, fin: BoardModel|
            rest_solves(m, c.successor(), ext, fin);
        assert(rest_solves(m, Some(c), ext, fin));
    }
    assert forall|ext: Seq<Edge>, fin: BoardModel| #[trigger]
        first_rest(m, c.successor(), ext, fin) implies first_rest(m, Some(c), ext, fin) by {
        assert(rest_solves(m, Some(c), ext, fin));
        assert forall|other: Seq<Edge>, end: BoardModel| #[trigger]
            rest_solves(m, Some(c), other, end) implies no_later(ext, other) by {
            assert(rest_solves(m, c.successor(), other, end));
        }
    }
}

/// With no colour left, the board is solved where its junctions are
/// saturated, and then by the empty run.
pub proof fn lemma_rest_done(m: BoardModel)
    ensures
        rest_solvable(m, None) == m.white_solved(),
        m.white_solved() ==> first_rest(m, None, Seq::empty(), m),
{
    if m.white_solved() {
        assert(rest_solves(m, None, Seq::empty(), m));
    }
    if rest_solvable(m, None) {
        let (ext, fin) = choose|ext: Seq<Edge>, fin: BoardModel| rest_solves(m, None, ext, fin);
        assert(m.white_solved());
    }
}

/// Of two runs that continue the same path, each met no later than the
/// other, there is only one, and it leaves one board.
pub proof fn lemma_path_order_decides(
    m: BoardModel,
    p: (int, int),
    color: Color,
    a: Seq<Edge>,
    fa: BoardModel,
    b: Seq<Edge>,
    fb: BoardModel,
)
    requires
        path_solves(m, p, color, a, fa),
        path_solves(m, p, color, b, fb),
        no_later(a, b),
        no_later(b, a),
    ensures
        a == b,
        fa == fb,
    decreases a.len(), 0nat,
{
    assert(a[0].1.order() == b[0].1.order());
    assert(a[0].1 == b[0].1);
    assert(a[0].0 == b[0].0);
    assert(a[0] == b[0]);
    let placed = m.with_edge(a[0].0, a[0].1, color);
    if m.symbol(a[0].1.target(p)) == Symbol::endpoint_of(color) {
        lemma_rest_order_decides(
            placed,
            color.successor(),
            a.drop_first(),
            fa,
            b.drop_first(),
            fb,
        );
    } else {
        lemma_path_order_decides(
            placed,
            a[0].1.target(p),
            color,
            a.drop_first(),
            fa,
            b.drop_first(),
            fb,
        );
    }
    assert(a =~= seq![a[0]] + a.drop_first());
    assert(b =~= seq![b[0]] + b.drop_first());
}

/// The same of two runs that solve the colours from `next` on.
pub proof fn lemma_rest_order_decides(
    m: BoardModel,
    next: Option<Color>,
    a: Seq<Edge>,
    fa: BoardModel,
    b: Seq<Edge>,
    fb: BoardModel,
)
    requires
        rest_solves(m, next, a, fa),
        rest_solves(m, next, b, fb),
        no_later(a, b),
        no_later(b, a),
    ensures
        a == b,
        fa == fb,
    decreases a.len(), 1 + colors_left(next),
{
    match next {
        None => {
            assert(a =~= b);
        },
        Some(c) => {
            if m.has_start(c) {
                lemma_path_order_decides(
                    m.marked(m.start(c)),
                    m.pos(m.start(c)),
                    c,
                    a,
                    fa,
                    b,
                    fb,
                );
            } else {
                lemma_rest_order_decides(m, c.successor(), a, fa, b, fb);
            }
        },
    }
}

/// The search has one answer: the first solving run and the board that it
/// leaves are determined by the board on which the search starts.
pub proof fn lemma_first_rest_unique(
    m: BoardModel,
    next: Option<Color>,
    a: Seq<Edge>,
    fa: BoardModel,
    b: Seq<Edge>,
    fb: BoardModel,
)
    requires
        first_rest(m, next, a, fa),
        first_rest(m, next, b, fb),
    ensures
        a == b,
        fa == fb,
{
    lemma_rest_order_decides(m, next, a, fa, b, fb);
}

/// The same of a search that continues a path.
pub proof fn lemma_first_path_unique(
    m: BoardModel,
    p: (int, int),
    color: Color,
    a: Seq<Edge>,
    fa: BoardModel,
    b: Seq<Edge>,
    fb: BoardModel,
)
    requires
        first_path(m, p, color, a, fa),
        first_path(m, p, color, b, fb),
    ensures
        a == b,
        fa == fb,
{
    lemma_path_order_decides(m, p, color, a, fa, b, fb);
}

} // verus!
