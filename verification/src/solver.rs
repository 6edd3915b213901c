//! The search: colour after colour, depth first, taking back every edge
//! that led nowhere.

use vstd::prelude::*;
use crate::symbol::{Color, Symbol};
use crate::direction::{Direction, Point, pt};
use crate::model::{BoardModel, lemma_idx_in_range};
use crate::board::Board;
use crate::closure::{color_solved, white_solved};
use crate::laws::{
    lemma_add_remove_inverse, lemma_marked_frame, lemma_marked_keeps_marks,
    lemma_with_edge_keeps_marks,
};
use crate::search::{
    colors_left, first_path, first_rest, free_slots, lemma_path_extends_log, lemma_rest_done,
    lemma_rest_extends_log, lemma_rest_passes_over, lemma_rest_starts_path,
    lemma_with_edge_fills, no_later, path_solvable, path_solves, rest_solvable, rest_solves,
};
use crate::solution::{completes, lemma_path_completes, lemma_rest_completes};

verus! {

/// The place of the first cell, row by row, that holds the endpoint marker
/// of `color`.
pub fn find_start(board: &Board, color: Color) -> (r: Option<usize>)
    ensures
        r is Some == board@.has_start(color),
        r matches Some(i) ==> i == board@.start(color) && board@.is_start(i as int, color),
{
    let wanted = Symbol::color_end(color);
    let mut i: usize = 0;
    while i < board.board.len()
        invariant
            i <= board.board@.len(),
            wanted == Symbol::endpoint_of(color),
            forall|j: int| 0 <= j < i ==> (#[trigger] board@.cells[j]).0 != wanted,
        decreases board.board@.len() - i,
    {
        if board.board[i].0 == wanted {
            proof {
                assert(board@.is_start(i as int, color));
                let c = board@.start(color);
                assert(board@.is_start(c, color));
                assert(c == i) by {
                    if c < i {
                        assert(board@.cells[c].0 != wanted);
                    }
                    if i < c {
                        assert(board@.cells[i as int].0 != wanted);
                    }
                }
            }
            return Some(i);
        }
        i += 1;
    }
    proof {
        if board@.has_start(color) {
            let c = choose|c: int| board@.is_start(c, color);
            assert(board@.cells[c].0 != wanted);
        }
    }
    None
}

/// Solves `color` and the colours after it. The path of `color` starts at
/// the colour's first endpoint; a colour without an endpoint is passed over.
///
/// The answer says whether a solving run of edges exists. If one does, the
/// board holds the first that the search meets, behind what the log held
/// before; if none does, the board is as it was.
///
/// The first cell of a path is marked by raising its count, so the counts
/// of the endpoints of `color` and of the later colours must not stand at
/// their largest value: on a board that was just made or loaded they are 0.
pub fn solve_color(board: &mut Board, color: Color) -> (ok: bool)
    requires
        old(board)@.wf(),
        old(board)@.marks_fit(color.rank()),
    ensures
        final(board)@.wf(),
        ok == rest_solvable(old(board)@, Some(color)),
        ok ==> first_rest(
            old(board)@,
            Some(color),
            final(board)@.log.skip(old(board)@.log.len() as int),
            final(board)@,
        ),
        ok ==> completes(old(board)@, final(board)@, color.rank()),
        !ok ==> final(board)@ == old(board)@,
    decreases free_slots(old(board)@), 2 * colors_left(Some(color)),
{
    let ghost m0 = board@;
    let start = find_start(board, color);
    let ok = if let Some(start_idx) = start {
        proof {
            lemma_marked_frame(m0, start_idx as int, color);
            lemma_marked_keeps_marks(m0, start_idx as int, color);
            lemma_rest_starts_path(m0, color);
        }
        board.board[start_idx].1 += 1;
        assert(board@ == m0.marked(start_idx as int));
        let start = board.pos(start_idx);
        let res = solve(board, start, color);
        if !res {
            // backtrack to previous color
            board.board[start_idx].1 -= 1;
            assert(board@.cells =~= m0.cells);
        }
        res
    } else {
        proof {
            lemma_rest_passes_over(m0, color);
        }
        if let Some(next_color) = color.next() {
            solve_color(board, next_color)
        } else {
            let done = white_solved(board);
            proof {
                lemma_rest_done(m0);
                assert(board@.log.skip(m0.log.len() as int) =~= Seq::empty());
            }
            done
        }
    };
    proof {
        if ok {
            lemma_rest_completes(m0, Some(color), board@.log.skip(m0.log.len() as int), board@);
        }
    }
    ok
}

/// Goes on with the colour after `color`, or, when `color` was the last,
/// checks that every junction is saturated. The answer and the board are
/// as for `solve_color` on the next colour.
pub fn move_to_next_color(board: &mut Board, color: Color) -> (ok: bool)
    requires
        old(board)@.wf(),
        old(board)@.marks_fit(color.rank() + 1),
    ensures
        final(board)@.wf(),
        ok == rest_solvable(old(board)@, color.successor()),
        ok ==> first_rest(
            old(board)@,
            color.successor(),
            final(board)@.log.skip(old(board)@.log.len() as int),
            final(board)@,
        ),
        ok ==> completes(old(board)@, final(board)@, color.rank() + 1),
        !ok ==> final(board)@ == old(board)@,
    decreases free_slots(old(board)@), 2 * colors_left(color.successor()) + 1,
{
    let ghost m0 = board@;
    let ok = if let Some(next_color) = color.next() {
        solve_color(board, next_color)
    } else {
        let done = white_solved(board);
        proof {
            lemma_rest_done(m0);
            assert(board@.log.skip(m0.log.len() as int) =~= Seq::empty());
        }
        done
    };
    proof {
        if ok {
            lemma_rest_completes(
                m0,
                color.successor(),
                board@.log.skip(m0.log.len() as int),
                board@,
            );
        }
    }
    ok
}

/// Continues the path of `color` from the cell `point`, trying the eight
/// directions in their order, and solves the colours after it once the path
/// has entered an endpoint and the colour is closed.
///
/// The answer says whether a solving run of edges exists from here. If one
/// does, the board holds the first that the search meets; if none does, the
/// board is as it was.
pub fn solve(board: &mut Board, point: Point, color: Color) -> (ok: bool)
    requires
        old(board)@.wf(),
        old(board)@.marks_fit(color.rank() + 1),
    ensures
        final(board)@.wf(),
        ok == path_solvable(old(board)@, pt(point), color),
        ok ==> first_path(
            old(board)@,
            pt(point),
            color,
            final(board)@.log.skip(old(board)@.log.len() as int),
            final(board)@,
        ),
        ok ==> completes(old(board)@, final(board)@, color.rank() + 1),
        ok ==> final(board)@.color_closed(color),
        !ok ==> final(board)@ == old(board)@,
    decreases free_slots(old(board)@), 0nat,
{
    let ghost m0 = board@;
    let ghost p = pt(point);
    let mut i: usize = 0;
    while i < 8
        invariant
            i <= 8,
            m0 == old(board)@,
            p == pt(point),
            board@ == m0,
            m0.wf(),
            m0.marks_fit(color.rank() + 1),
            forall|ext: Seq<_>, fin: BoardModel| #[trigger]
                path_solves(m0, p, color, ext, fin) ==> ext[0].1.order() >= i,
        decreases 8 - i,
    {
        let direction = Direction::nth(i);
        if board.add_line(point, direction, color) {
            let ghost m1 = board@;
            proof {
                lemma_with_edge_fills(m0, point, direction, color);
                lemma_with_edge_keeps_marks(m0, point, direction, color);
                lemma_add_remove_inverse(m0, point, direction, color);
                lemma_idx_in_range(m0, direction.target(p));
            }
            let next_point = direction.apply_offset(point);
            assert(m1.symbol(pt(next_point)) == m0.symbol(direction.target(p)));
            if board.board[board.index(next_point)].0 == Symbol::color_end(color) {
                if color_solved(board, color) {
                    if move_to_next_color(board, color) {
                        proof {
                            let tail = board@.log.skip(m1.log.len() as int);
                            let ext = board@.log.skip(m0.log.len() as int);
                            lemma_rest_extends_log(m1, color.successor(), tail, board@);
                            assert(ext[0] == (point, direction, color));
                            assert(ext.drop_first() =~= tail);
                            assert(path_solves(m0, p, color, ext, board@));
                            lemma_path_completes(m0, p, color, ext, board@);
                            assert forall|other: Seq<_>, end: BoardModel| #[trigger]
                                path_solves(m0, p, color, other, end) implies no_later(
                                ext,
                                other,
                            ) by {
                                if other[0].1.order() == i {
                                    assert(other[0].1 == direction);
                                    assert(other[0].0 == point);
                                    assert(rest_solves(
                                        m1,
                                        color.successor(),
                                        other.drop_first(),
                                        end,
                                    ));
                                }
                            }
                        }
                        return true;
                    }  // else continue to solve this color

                }
            } else {
                let result = solve(board, next_point, color);
                if result {
                    proof {
                        let tail = board@.log.skip(m1.log.len() as int);
                        let ext = board@.log.skip(m0.log.len() as int);
                        lemma_path_extends_log(m1, pt(next_point), color, tail, board@);
                        assert(ext[0] == (point, direction, color));
                        assert(ext.drop_first() =~= tail);
                        assert(path_solves(m0, p, color, ext, board@));
                        lemma_path_completes(m0, p, color, ext, board@);
                        assert forall|other: Seq<_>, end: BoardModel| #[trigger]
                            path_solves(m0, p, color, other, end) implies no_later(ext, other) by {
                            if other[0].1.order() == i {
                                assert(other[0].1 == direction);
                                assert(other[0].0 == point);
                                assert(path_solves(
                                    m1,
                                    pt(next_point),
                                    color,
                                    other.drop_first(),
                                    end,
                                ));
                            }
                        }
                    }
                    return true;
                }
            }
            assert(board@ == m1);
            board.remove_line(point, direction);
            proof {
                assert(board@ == m0);
                assert forall|ext: Seq<_>, fin: BoardModel| #[trigger]
                    path_solves(m0, p, color, ext, fin) implies ext[0].1.order() >= i + 1 by {
                    if ext[0].1.order() == i {
                        assert(ext[0].1 == direction);
                        assert(ext[0].0 == point);
                        assert(m0.with_edge(ext[0].0, ext[0].1, color) == m1);
                        if m0.symbol(direction.target(p)) == Symbol::endpoint_of(color) {
                            assert(rest_solves(m1, color.successor(), ext.drop_first(), fin));
                            assert(rest_solvable(m1, color.successor()));
                        } else {
                            assert(path_solves(
                                m1,
                                pt(next_point),
                                color,
                                ext.drop_first(),
                                fin,
                            ));
                            assert(path_solvable(m1, pt(next_point), color));
                        }
                    }
                }
            }
        } else {
            proof {
                assert forall|ext: Seq<_>, fin: BoardModel| #[trigger]
                    path_solves(m0, p, color, ext, fin) implies ext[0].1.order() >= i + 1 by {
                    if ext[0].1.order() == i {
                        assert(ext[0].1 == direction);
                        assert(ext[0].0 == point);
                    }
                }
            }
        }
        i += 1;
    }
    proof {
        assert forall|ext: Seq<_>, fin: BoardModel| !path_solves(m0, p, color, ext, fin) by {
            if path_solves(m0, p, color, ext, fin) {
                assert(ext[0].1.order() >= 8);
            }
        }
    }
    false
}

} // verus!
