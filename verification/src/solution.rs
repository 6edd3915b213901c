//! What holds of every board that a solving run leaves.

use vstd::prelude::*;
use crate::symbol::{Color, Symbol};
use crate::direction::{DirectionInner, pt};
use crate::model::{BoardModel, Edge, lemma_idx_in_range};
use crate::laws::{
    keeps_edges, lemma_closed_stays, lemma_marked_frame, lemma_marked_keeps_marks,
    lemma_same_grid_start, lemma_with_edge_frame, lemma_with_edge_keeps_marks,
    lemma_with_edge_wf, same_grid,
};
use crate::search::{colors_left, path_solves, rest_solves};

verus! {

/// The board that a run leaves which continues a path: it is of the same
/// grid, holds every edge that was there, meets the invariant, and each of
/// its junctions is saturated.
pub proof fn lemma_path_outcome(
    m: BoardModel,
    p: (int, int),
    color: Color,
    ext: Seq<Edge>,
    fin: BoardModel,
)
    requires
        m.wf(),
        path_solves(m, p, color, ext, fin),
    ensures
        fin.wf(),
        same_grid(m, fin),
        keeps_edges(m, fin),
        fin.white_solved(),
    decreases ext.len(), 0nat,
{
    let e = ext[0];
    let placed = m.with_edge(e.0, e.1, color);
    lemma_with_edge_wf(m, e.0, e.1, color);
    lemma_with_edge_frame(m, e.0, e.1, color);
    if m.symbol(e.1.target(p)) == Symbol::endpoint_of(color) {
        lemma_rest_outcome(placed, color.successor(), ext.drop_first(), fin);
    } else {
        lemma_path_outcome(placed, e.1.target(p), color, ext.drop_first(), fin);
    }
    assert forall|a: (int, int), d: DirectionInner|
        m.in_bounds(a) && (#[trigger] m.slot(a, d)) is Some implies fin.slot(a, d) == m.slot(
        a,
        d,
    ) by {
        assert(placed.slot(a, d) == m.slot(a, d));
    }
}

/// The same of the board that a run leaves which solves the colours from
/// `next` on.
pub proof fn lemma_rest_outcome(
    m: BoardModel,
    next: Option<Color>,
    ext: Seq<Edge>,
    fin: BoardModel,
)
    requires
        m.wf(),
        rest_solves(m, next, ext, fin),
    ensures
        fin.wf(),
        same_grid(m, fin),
        keeps_edges(m, fin),
        fin.white_solved(),
    decreases ext.len(), 1 + colors_left(next),
{
    match next {
        None => {},
        Some(c) => {
            if m.has_start(c) {
                let marked = m.marked(m.start(c));
                lemma_marked_frame(m, m.start(c), c);
                lemma_path_outcome(marked, m.pos(m.start(c)), c, ext, fin);
                assert forall|a: (int, int), d: DirectionInner|
                    m.in_bounds(a) && (#[trigger] m.slot(a, d)) is Some implies fin.slot(a, d)
                    == m.slot(a, d) by {
                    assert(marked.slot(a, d) == m.slot(a, d));
                }
            } else {
                lemma_rest_outcome(m, c.successor(), ext, fin);
            }
        },
    }
}

/// On the board that a path's run leaves, the path's colour is closed, and
/// so is every later colour that has an endpoint.
pub proof fn lemma_path_closes(
    m: BoardModel,
    p: (int, int),
    color: Color,
    ext: Seq<Edge>,
    fin: BoardModel,
    c: Color,
)
    requires
        m.wf(),
        path_solves(m, p, color, ext, fin),
        c == color || (c.rank() > color.rank() && m.has_start(c)),
    ensures
        fin.color_closed(c),
    decreases ext.len(), 0nat,
{
    let e = ext[0];
    let placed = m.with_edge(e.0, e.1, color);
    lemma_with_edge_wf(m, e.0, e.1, color);
    lemma_with_edge_frame(m, e.0, e.1, color);
    lemma_same_grid_start(m, placed, c);
    if m.symbol(e.1.target(p)) == Symbol::endpoint_of(color) {
        if c == color {
            lemma_rest_outcome(placed, color.successor(), ext.drop_first(), fin);
            lemma_closed_stays(placed, fin, color);
        } else {
            lemma_rest_closes(placed, color.successor(), ext.drop_first(), fin, c);
        }
    } else {
        lemma_path_closes(placed, e.1.target(p), color, ext.drop_first(), fin, c);
    }
}

/// On the board that a run leaves which solves the colours from `next` on,
/// each of those colours that has an endpoint is closed.
pub proof fn lemma_rest_closes(
    m: BoardModel,
    next: Option<Color>,
    ext: Seq<Edge>,
    fin: BoardModel,
    c: Color,
)
    requires
        m.wf(),
        rest_solves(m, next, ext, fin),
        next matches Some(n) && n.rank() <= c.rank(),
        m.has_start(c),
    ensures
        fin.color_closed(c),
    decreases ext.len(), 1 + colors_left(next),
{
    let n = next->0;
    if m.has_start(n) {
        let marked = m.marked(m.start(n));
        lemma_marked_frame(m, m.start(n), n);
        lemma_same_grid_start(m, marked, c);
        lemma_path_closes(marked, m.pos(m.start(n)), n, ext, fin, c);
    } else {
        lemma_rest_closes(m, n.successor(), ext, fin, c);
    }
}

/// The cell to which an edge leads.
pub open spec fn leads_to(e: Edge) -> (int, int) {
    e.1.target(pt(e.0))
}

/// The edge `b` may come directly behind the edge `a` in a solving run:
/// either `a` entered an endpoint of its colour, and `b` opens the path of
/// a later colour at that colour's first endpoint; or `b` is of the colour
/// of `a` and starts at the cell to which `a` led.
pub open spec fn follows(m: BoardModel, a: Edge, b: Edge) -> bool {
    if m.symbol(leads_to(a)) == Symbol::endpoint_of(a.2) {
        a.2.rank() < b.2.rank() && m.has_start(b.2) && pt(b.0) == m.pos(m.start(b.2))
    } else {
        b.2 == a.2 && pt(b.0) == leads_to(a)
    }
}

/// The run is made of one path for each colour in it, the colours in their
/// order: every edge but the first follows the one before it, every edge
/// joins two cells of the grid, and the last edge enters an endpoint of its
/// colour.
pub open spec fn linked(m: BoardModel, ext: Seq<Edge>) -> bool {
    &&& forall|k: int| 0 <= k < ext.len() - 1 ==> #[trigger] follows(m, ext[k], ext[k + 1])
    &&& forall|k: int|
        0 <= k < ext.len() ==> m.in_bounds(pt((#[trigger] ext[k]).0)) && m.in_bounds(
            leads_to(ext[k]),
        )
    &&& ext.len() > 0 ==> m.symbol(leads_to(ext.last())) == Symbol::endpoint_of(ext.last().2)
}

proof fn lemma_linked_step(m: BoardModel, placed: BoardModel, e: Edge, rest: Seq<Edge>)
    requires
        m.shaped(),
        same_grid(m, placed),
        linked(placed, rest),
        m.in_bounds(pt(e.0)),
        m.in_bounds(leads_to(e)),
        rest.len() > 0 ==> follows(m, e, rest[0]),
        rest.len() == 0 ==> m.symbol(leads_to(e)) == Symbol::endpoint_of(e.2),
    ensures
        linked(m, seq![e] + rest),
{
    let ext = seq![e] + rest;
    lemma_same_grid_start(m, placed, Color::Red);
    lemma_same_grid_start(m, placed, Color::Green);
    lemma_same_grid_start(m, placed, Color::Blue);
    assert forall|k: int| 0 <= k < ext.len() implies m.in_bounds(pt((#[trigger] ext[k]).0))
        && m.in_bounds(leads_to(ext[k])) by {
        if k > 0 {
            assert(ext[k] == rest[k - 1]);
        }
    }
    assert forall|k: int| 0 <= k < ext.len() - 1 implies #[trigger] follows(
        m,
        ext[k],
        ext[k + 1],
    ) by {
        assert(ext[k + 1] == rest[k]);
        if k > 0 {
            assert(ext[k] == rest[k - 1]);
            assert(follows(placed, rest[k - 1], rest[k - 1 + 1]));
            lemma_idx_in_range(m, leads_to(rest[k - 1]));
        }
    }
    if rest.len() > 0 {
        assert(ext.last() == rest.last());
        lemma_idx_in_range(m, leads_to(rest.last()));
    }
}

/// A run that continues a path is linked, and its first edge starts where
/// the path stood.
pub proof fn lemma_path_linked(
    m: BoardModel,
    p: (int, int),
    color: Color,
    ext: Seq<Edge>,
    fin: BoardModel,
)
    requires
        m.wf(),
        path_solves(m, p, color, ext, fin),
    ensures
        linked(m, ext),
        ext.len() > 0 && pt(ext[0].0) == p && ext[0].2 == color,
    decreases ext.len(), 0nat,
{
    let e = ext[0];
    let rest = ext.drop_first();
    let placed = m.with_edge(e.0, e.1, color);
    lemma_with_edge_wf(m, e.0, e.1, color);
    lemma_with_edge_frame(m, e.0, e.1, color);
    lemma_same_grid_start(m, placed, Color::Red);
    lemma_same_grid_start(m, placed, Color::Green);
    lemma_same_grid_start(m, placed, Color::Blue);
    if m.symbol(e.1.target(p)) == Symbol::endpoint_of(color) {
        lemma_rest_linked(placed, color.successor(), rest, fin);
    } else {
        lemma_path_linked(placed, e.1.target(p), color, rest, fin);
    }
    lemma_linked_step(m, placed, e, rest);
    assert(ext =~= seq![e] + rest);
}

/// A run that solves the colours from `next` on is linked, and its first
/// edge opens the path of one of those colours at the colour's first
/// endpoint.
pub proof fn lemma_rest_linked(
    m: BoardModel,
    next: Option<Color>,
    ext: Seq<Edge>,
    fin: BoardModel,
)
    requires
        m.wf(),
        rest_solves(m, next, ext, fin),
    ensures
        linked(m, ext),
        ext.len() > 0 ==> next is Some && next->0.rank() <= ext[0].2.rank() && m.has_start(
            ext[0].2,
        ) && pt(ext[0].0) == m.pos(m.start(ext[0].2)),
    decreases ext.len(), 1 + colors_left(next),
{
    match next {
        None => {
            assert(ext.len() == 0);
        },
        Some(c) => {
            if m.has_start(c) {
                let marked = m.marked(m.start(c));
                lemma_marked_frame(m, m.start(c), c);
                lemma_path_linked(marked, m.pos(m.start(c)), c, ext, fin);
                lemma_relink(marked, m, ext);
            } else {
                lemma_rest_linked(m, c.successor(), ext, fin);
            }
        },
    }
}

proof fn lemma_relink(a: BoardModel, b: BoardModel, ext: Seq<Edge>)
    requires
        a.shaped(),
        same_grid(b, a),
        linked(a, ext),
    ensures
        linked(b, ext),
{
    lemma_same_grid_start(b, a, Color::Red);
    lemma_same_grid_start(b, a, Color::Green);
    lemma_same_grid_start(b, a, Color::Blue);
    assert forall|k: int| 0 <= k < ext.len() implies b.in_bounds(pt((#[trigger] ext[k]).0))
        && b.in_bounds(leads_to(ext[k])) by {}
    assert forall|k: int| 0 <= k < ext.len() - 1 implies #[trigger] follows(
        b,
        ext[k],
        ext[k + 1],
    ) by {
        assert(follows(a, ext[k], ext[k + 1]));
        lemma_idx_in_range(a, leads_to(ext[k]));
    }
    if ext.len() > 0 {
        lemma_idx_in_range(a, leads_to(ext.last()));
    }
}

/// The edge `e` is the one that is stored at `p` under `d`.
pub open spec fn stored_at(e: Edge, p: (int, int), d: DirectionInner) -> bool {
    e.1.home(pt(e.0)) == p && e.1.inner() == d
}

/// Every slot in which `fin` differs from `m` holds an edge of the run,
/// with the colour of that edge.
pub open spec fn accounts_for(m: BoardModel, ext: Seq<Edge>, fin: BoardModel) -> bool {
    forall|p: (int, int), d: DirectionInner|
        m.in_bounds(p) && (#[trigger] fin.slot(p, d)) != m.slot(p, d) ==> exists|k: int|
            0 <= k < ext.len() && stored_at(#[trigger] ext[k], p, d) && fin.slot(p, d) == Some(
                ext[k].2,
            )
}

proof fn lemma_accounts_step(
    m: BoardModel,
    e: Edge,
    rest: Seq<Edge>,
    fin: BoardModel,
)
    requires
        m.wf(),
        m.legal(e.0, e.1, e.2),
        keeps_edges(m.with_edge(e.0, e.1, e.2), fin),
        accounts_for(m.with_edge(e.0, e.1, e.2), rest, fin),
    ensures
        accounts_for(m, seq![e] + rest, fin),
{
    let placed = m.with_edge(e.0, e.1, e.2);
    let ext = seq![e] + rest;
    let home = e.1.home(pt(e.0));
    lemma_with_edge_frame(m, e.0, e.1, e.2);
    lemma_idx_in_range(m, home);
    assert forall|p: (int, int), d: DirectionInner|
        m.in_bounds(p) && (#[trigger] fin.slot(p, d)) != m.slot(p, d) implies exists|k: int|
        0 <= k < ext.len() && stored_at(#[trigger] ext[k], p, d) && fin.slot(p, d) == Some(
            ext[k].2,
        ) by {
        lemma_idx_in_range(m, p);
        if p == home && d == e.1.inner() {
            assert(placed.slot(p, d) == Some(e.2));
            assert(fin.slot(p, d) == Some(e.2));
            assert(stored_at(ext[0], p, d));
        } else {
            assert(m.idx(p) != m.idx(home) || d.slot() != e.1.inner().slot());
            assert(placed.slot(p, d) == m.slot(p, d));
            let k = choose|k: int|
                0 <= k < rest.len() && stored_at(#[trigger] rest[k], p, d) && fin.slot(p, d)
                    == Some(rest[k].2);
            assert(ext[k + 1] == rest[k]);
            assert(stored_at(ext[k + 1], p, d));
        }
    }
}

/// The board that a path's run leaves holds, beside the edges that were
/// stored before, only edges of the run.
pub proof fn lemma_path_accounts(
    m: BoardModel,
    p: (int, int),
    color: Color,
    ext: Seq<Edge>,
    fin: BoardModel,
)
    requires
        m.wf(),
        path_solves(m, p, color, ext, fin),
    ensures
        accounts_for(m, ext, fin),
    decreases ext.len(), 0nat,
{
    let e = ext[0];
    let rest = ext.drop_first();
    let placed = m.with_edge(e.0, e.1, color);
    lemma_with_edge_wf(m, e.0, e.1, color);
    if m.symbol(e.1.target(p)) == Symbol::endpoint_of(color) {
        lemma_rest_accounts(placed, color.successor(), rest, fin);
        lemma_rest_outcome(placed, color.successor(), rest, fin);
    } else {
        lemma_path_accounts(placed, e.1.target(p), color, rest, fin);
        lemma_path_outcome(placed, e.1.target(p), color, rest, fin);
    }
    lemma_accounts_step(m, e, rest, fin);
    assert(ext =~= seq![e] + rest);
}

/// The same of the board that a run leaves which solves the colours from
/// `next` on.
pub proof fn lemma_rest_accounts(
    m: BoardModel,
    next: Option<Color>,
    ext: Seq<Edge>,
    fin: BoardModel,
)
    requires
        m.wf(),
        rest_solves(m, next, ext, fin),
    ensures
        accounts_for(m, ext, fin),
    decreases ext.len(), 1 + colors_left(next),
{
    match next {
        None => {},
        Some(c) => {
            if m.has_start(c) {
                let marked = m.marked(m.start(c));
                lemma_marked_frame(m, m.start(c), c);
                lemma_path_accounts(marked, m.pos(m.start(c)), c, ext, fin);
                assert forall|p: (int, int), d: DirectionInner|
                    m.in_bounds(p) && (#[trigger] fin.slot(p, d)) != m.slot(
                        p,
                        d,
                    ) implies exists|k: int|
                    0 <= k < ext.len() && stored_at(#[trigger] ext[k], p, d) && fin.slot(p, d)
                        == Some(ext[k].2) by {
                    assert(marked.slot(p, d) == m.slot(p, d));
                }
            } else {
                lemma_rest_accounts(m, c.successor(), ext, fin);
            }
        },
    }
}

/// On a board that held no edge of the colour `c`, a run that solves `c`
/// passes every plain segment cell of `c`: the cell is an end of one of the
/// run's edges of that colour.
pub proof fn lemma_segments_on_path(
    m: BoardModel,
    next: Option<Color>,
    ext: Seq<Edge>,
    fin: BoardModel,
    c: Color,
    i: int,
)
    requires
        m.wf(),
        rest_solves(m, next, ext, fin),
        next matches Some(n) && n.rank() <= c.rank(),
        m.has_start(c),
        forall|p: (int, int), d: DirectionInner|
            m.in_bounds(p) ==> #[trigger] m.slot(p, d) != Some(c),
        0 <= i < m.cells.len(),
        m.cells[i].0 == Symbol::segment_of(c),
    ensures
        exists|k: int|
            0 <= k < ext.len() && (#[trigger] ext[k]).2 == c && (i == m.idx(pt(ext[k].0)) || i
                == m.idx(leads_to(ext[k]))),
{
    lemma_rest_closes(m, next, ext, fin, c);
    lemma_rest_outcome(m, next, ext, fin);
    lemma_rest_accounts(m, next, ext, fin);
    assert(fin.cells[i].0 == m.cells[i].0);
    assert(fin.touched(i, c));
    let (p, d) = choose|p: (int, int), d: DirectionInner| #[trigger]
        fin.has_edge(p, d, c) && (i == fin.idx(p) || i == fin.idx(d.outward().target(p)));
    assert(m.slot(p, d) != Some(c));
    assert(fin.slot(p, d) != m.slot(p, d));
    let k = choose|k: int|
        0 <= k < ext.len() && stored_at(#[trigger] ext[k], p, d) && fin.slot(p, d) == Some(
            ext[k].2,
        );
    assert(ext[k].2 == c);
}

/// Place of the cell that an edge enters.
pub open spec fn enters(m: BoardModel, e: Edge) -> int {
    m.idx(leads_to(e))
}

/// Every edge of the run enters a junction or a cell that had no incoming
/// edge on `m`, and no cell but a junction is entered twice.
pub open spec fn fresh_entries(m: BoardModel, ext: Seq<Edge>) -> bool {
    &&& forall|k: int|
        0 <= k < ext.len() ==> 0 <= enters(m, #[trigger] ext[k]) < m.cells.len() && (m.cells[enters(
            m,
            ext[k],
        )].0 is White || m.cells[enters(m, ext[k])].1 == 0)
    &&& forall|j: int, k: int|
        0 <= j < k < ext.len() && enters(m, #[trigger] ext[j]) == enters(m, #[trigger] ext[k])
            ==> m.cells[enters(m, ext[k])].0 is White
}

/// No edge of a colour of rank `rank` or later enters the cell at which
/// the path of its colour starts.
pub open spec fn leaves_starts(m: BoardModel, ext: Seq<Edge>, rank: nat) -> bool {
    forall|k: int|
        0 <= k < ext.len() && (#[trigger] ext[k]).2.rank() >= rank && m.has_start(ext[k].2)
            ==> enters(m, ext[k]) != m.start(ext[k].2)
}

/// The rank of the colour `next`, and one past the last rank for `None`.
pub open spec fn rank_from(next: Option<Color>) -> nat {
    match next {
        None => 3,
        Some(c) => c.rank(),
    }
}

/// A run that continues a path enters no cell twice but a junction, and no
/// later colour's path returns to its start.
pub proof fn lemma_path_simple(
    m: BoardModel,
    p: (int, int),
    color: Color,
    ext: Seq<Edge>,
    fin: BoardModel,
)
    requires
        m.wf(),
        m.marks_fit(color.rank() + 1),
        path_solves(m, p, color, ext, fin),
    ensures
        fresh_entries(m, ext),
        leaves_starts(m, ext, color.rank() + 1),
    decreases ext.len(), 0nat,
{
    let e = ext[0];
    let rest = ext.drop_first();
    let placed = m.with_edge(e.0, e.1, color);
    let q = enters(m, e);
    lemma_with_edge_wf(m, e.0, e.1, color);
    lemma_with_edge_frame(m, e.0, e.1, color);
    lemma_with_edge_keeps_marks(m, e.0, e.1, color);
    lemma_idx_in_range(m, leads_to(e));
    lemma_same_grid_start(m, placed, Color::Red);
    lemma_same_grid_start(m, placed, Color::Green);
    lemma_same_grid_start(m, placed, Color::Blue);
    if m.symbol(e.1.target(p)) == Symbol::endpoint_of(color) {
        lemma_rest_simple(placed, color.successor(), rest, fin);
    } else {
        lemma_path_simple(placed, e.1.target(p), color, rest, fin);
    }
    assert(m.cells[q].0 is White || placed.cells[q].1 == 1);
    assert forall|k: int| 0 <= k < ext.len() implies 0 <= enters(m, #[trigger] ext[k])
        < m.cells.len() && (m.cells[enters(m, ext[k])].0 is White || m.cells[enters(
        m,
        ext[k],
    )].1 == 0) by {
        if k > 0 {
            assert(ext[k] == rest[k - 1]);
            assert(enters(placed, rest[k - 1]) == enters(m, ext[k]));
        }
    }
    assert forall|j: int, k: int|
        0 <= j < k < ext.len() && enters(m, #[trigger] ext[j]) == enters(
            m,
            #[trigger] ext[k],
        ) implies m.cells[enters(m, ext[k])].0 is White by {
        assert(ext[k] == rest[k - 1]);
        assert(enters(placed, rest[k - 1]) == enters(m, ext[k]));
        if j > 0 {
            assert(ext[j] == rest[j - 1]);
            assert(enters(placed, rest[j - 1]) == enters(m, ext[j]));
        }
    }
    assert forall|k: int|
        0 <= k < ext.len() && (#[trigger] ext[k]).2.rank() >= color.rank() + 1 && m.has_start(
            ext[k].2,
        ) implies enters(m, ext[k]) != m.start(ext[k].2) by {
        if k > 0 {
            assert(ext[k] == rest[k - 1]);
            assert(enters(placed, rest[k - 1]) == enters(m, ext[k]));
        }
    }
}

/// A run that solves the colours from `next` on enters no cell twice but a
/// junction, and none of its paths returns to its start.
pub proof fn lemma_rest_simple(
    m: BoardModel,
    next: Option<Color>,
    ext: Seq<Edge>,
    fin: BoardModel,
)
    requires
        m.wf(),
        m.marks_fit(rank_from(next)),
        rest_solves(m, next, ext, fin),
    ensures
        fresh_entries(m, ext),
        leaves_starts(m, ext, rank_from(next)),
    decreases ext.len(), 1 + colors_left(next),
{
    match next {
        None => {
            assert(ext.len() == 0);
        },
        Some(c) => {
            if m.has_start(c) {
                let s = m.start(c);
                let marked = m.marked(s);
                lemma_marked_keeps_marks(m, s, c);
                lemma_marked_frame(m, s, c);
                lemma_same_grid_start(m, marked, Color::Red);
                lemma_same_grid_start(m, marked, Color::Green);
                lemma_same_grid_start(m, marked, Color::Blue);
                lemma_path_simple(marked, m.pos(s), c, ext, fin);
                assert(!(marked.cells[s].0 is White) && marked.cells[s].1 > 0);
                assert forall|k: int| 0 <= k < ext.len() implies enters(m, #[trigger] ext[k])
                    != s by {
                    assert(enters(marked, ext[k]) == enters(m, ext[k]));
                }
                assert forall|k: int| 0 <= k < ext.len() implies 0 <= enters(
                    m,
                    #[trigger] ext[k],
                ) < m.cells.len() && (m.cells[enters(m, ext[k])].0 is White || m.cells[enters(
                    m,
                    ext[k],
                )].1 == 0) by {
                    assert(enters(marked, ext[k]) == enters(m, ext[k]));
                }
                assert forall|j: int, k: int|
                    0 <= j < k < ext.len() && enters(m, #[trigger] ext[j]) == enters(
                        m,
                        #[trigger] ext[k],
                    ) implies m.cells[enters(m, ext[k])].0 is White by {
                    assert(enters(marked, ext[k]) == enters(m, ext[k]));
                    assert(enters(marked, ext[j]) == enters(m, ext[j]));
                }
                assert forall|k: int|
                    0 <= k < ext.len() && (#[trigger] ext[k]).2.rank() >= c.rank() && m.has_start(
                        ext[k].2,
                    ) implies enters(m, ext[k]) != m.start(ext[k].2) by {
                    assert(enters(marked, ext[k]) == enters(m, ext[k]));
                    if ext[k].2.rank() == c.rank() {
                        assert(ext[k].2 == c);
                    }
                }
            } else {
                lemma_rest_simple(m, c.successor(), ext, fin);
                assert forall|k: int|
                    0 <= k < ext.len() && (#[trigger] ext[k]).2.rank() >= c.rank() && m.has_start(
                        ext[k].2,
                    ) implies enters(m, ext[k]) != m.start(ext[k].2) by {
                    if ext[k].2.rank() == c.rank() {
                        assert(ext[k].2 == c);
                    }
                }
            }
        },
    }
}

/// What a successful search leaves of the board `m` it started on: a board
/// of the same grid that meets the invariant, holds every edge that was
/// there, has the old log in front of its own, has every junction
/// saturated, and on which every colour of rank `rank` or later that has an
/// endpoint is closed.
pub open spec fn completes(m: BoardModel, fin: BoardModel, rank: nat) -> bool {
    &&& fin.wf()
    &&& same_grid(m, fin)
    &&& keeps_edges(m, fin)
    &&& m.log.is_prefix_of(fin.log)
    &&& fin.white_solved()
    &&& forall|c: Color| c.rank() >= rank && m.has_start(c) ==> #[trigger] fin.color_closed(c)
}

/// A run that continues a path completes the board, and closes the path's
/// own colour.
pub proof fn lemma_path_completes(
    m: BoardModel,
    p: (int, int),
    color: Color,
    ext: Seq<Edge>,
    fin: BoardModel,
)
    requires
        m.wf(),
        path_solves(m, p, color, ext, fin),
    ensures
        completes(m, fin, color.rank() + 1),
        fin.color_closed(color),
{
    lemma_path_outcome(m, p, color, ext, fin);
    crate::search::lemma_path_extends_log(m, p, color, ext, fin);
    lemma_path_closes(m, p, color, ext, fin, color);
    assert forall|c: Color| c.rank() >= color.rank() + 1 && m.has_start(c) implies #[trigger]
        fin.color_closed(c) by {
        lemma_path_closes(m, p, color, ext, fin, c);
    }
}

/// A run that solves the colours from `next` on completes the board.
pub proof fn lemma_rest_completes(
    m: BoardModel,
    next: Option<Color>,
    ext: Seq<Edge>,
    fin: BoardModel,
)
    requires
        m.wf(),
        rest_solves(m, next, ext, fin),
    ensures
        completes(m, fin, rank_from(next)),
{
    lemma_rest_outcome(m, next, ext, fin);
    crate::search::lemma_rest_extends_log(m, next, ext, fin);
    assert forall|c: Color| c.rank() >= rank_from(next) && m.has_start(c) implies #[trigger]
        fin.color_closed(c) by {
        lemma_rest_closes(m, next, ext, fin, c);
    }
}

} // verus!
