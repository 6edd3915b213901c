//! The placed edges as they are reported: one group for each run of edges
//! of one colour.

use vstd::prelude::*;
use iter_tools::Itertools;
use crate::symbol::Color;
use crate::direction::{Direction, Point};
use crate::model::{BoardModel, Edge};
use crate::board::Board;
use crate::solution::follows;

verus! {

/// The edges of one colour that stand side by side in the log, without
/// their colour.
pub type Run = (Color, Vec<(Point, Direction)>);

/// The edges that the groups hold, group after group, each with the colour
/// of its group.
pub open spec fn ungrouped(runs: Seq<Run>) -> Seq<Edge>
    decreases runs.len(),
{
    if runs.len() == 0 {
        Seq::empty()
    } else {
        ungrouped(runs.drop_last()) + runs.last().1@.map_values(
            |s: (Point, Direction)| (s.0, s.1, runs.last().0),
        )
    }
}

/// The groups are the log cut where the colour changes: together they hold
/// the log, none is empty, and neighbours differ in colour.
pub open spec fn grouped(log: Seq<Edge>, runs: Seq<Run>) -> bool {
    &&& ungrouped(runs) == log
    &&& forall|k: int| 0 <= k < runs.len() ==> (#[trigger] runs[k]).1@.len() > 0
    &&& forall|k: int| 0 <= k < runs.len() - 1 ==> (#[trigger] runs[k]).0 != runs[k + 1].0
}

/// Cuts a log into its runs of one colour. This is
/// `iter_tools::Itertools::group_by` with the colour as key, each group
/// collected in turn; the claim made of it is what its documentation says:
/// consecutive elements with the same key form one group, the groups come in
/// the order of the elements, and each carries its key. Colours are told
/// apart by their derived `PartialEq`.
#[verifier::external_body]
fn color_runs(log: &Vec<Edge>) -> (runs: Vec<Run>)
    ensures
        grouped(log@, runs@),
{
    let groups = log.iter().group_by(|e| e.2);
    let mut runs: Vec<Run> = Vec::new();
    for (color, group) in &groups {
        runs.push((color, group.map(|e| (e.0, e.1)).collect()));
    }
    runs
}

impl Board {
    /// The placed edges in the order in which they were placed, grouped by
    /// colour: a new group starts wherever the colour changes.
    pub fn groups(&self) -> (runs: Vec<Run>)
        ensures
            grouped(self@.log, runs@),
    {
        color_runs(&self.result)
    }
}

/// Where every edge of a log follows the one before it, as in a solving
/// run, the groups come in the solving order of their colours: each colour
/// has one group at most, which holds its whole path.
pub proof fn lemma_groups_in_order(m: BoardModel, log: Seq<Edge>, runs: Seq<Run>)
    requires
        forall|k: int| 0 <= k < log.len() - 1 ==> #[trigger] follows(m, log[k], log[k + 1]),
        grouped(log, runs),
    ensures
        forall|k: int|
            0 <= k < runs.len() - 1 ==> (#[trigger] runs[k]).0.rank() < runs[k + 1].0.rank(),
    decreases runs.len(),
{
    if runs.len() >= 2 {
        let n = runs.len() as int;
        let init = runs.drop_last();
        let head = ungrouped(init);
        let tail = runs.last().1@.map_values(|s: (Point, Direction)| (s.0, s.1, runs.last().0));
        assert(log == head + tail);
        assert(runs[n - 1].1@.len() > 0);
        let before = init.last().1@.map_values(
            |s: (Point, Direction)| (s.0, s.1, init.last().0),
        );
        assert(init.last() == runs[n - 2]);
        assert(runs[n - 2].1@.len() > 0);
        assert(head == ungrouped(init.drop_last()) + before);
        let b = head.len() as int;
        assert(log[b - 1] == before.last());
        assert(log[b] == tail[0]);
        assert(follows(m, log[b - 1], log[b - 1 + 1]));
        assert(runs[n - 2].0 != runs[n - 2 + 1].0);
        assert forall|k: int| 0 <= k < head.len() - 1 implies #[trigger] follows(
            m,
            head[k],
            head[k + 1],
        ) by {
            assert(follows(m, log[k], log[k + 1]));
        }
        assert forall|k: int| 0 <= k < init.len() implies (#[trigger] init[k]).1@.len() > 0 by {
            assert(init[k] == runs[k]);
        }
        assert forall|k: int| 0 <= k < init.len() - 1 implies (#[trigger] init[k]).0 != init[k
            + 1].0 by {
            assert(init[k] == runs[k]);
            assert(init[k + 1] == runs[k + 1]);
        }
        lemma_groups_in_order(m, head, init);
        assert forall|k: int| 0 <= k < runs.len() - 1 implies (#[trigger] runs[k]).0.rank()
            < runs[k + 1].0.rank() by {
            if k < n - 2 {
                assert(init[k] == runs[k]);
                assert(init[k + 1] == runs[k + 1]);
            }
        }
    }
}

} // verus!
