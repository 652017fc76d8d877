//! Compaction tasks and the priorities of levels.

use crate::table::SsTable;
use std::sync::Arc;
use vstd::prelude::*;

verus! {

/// How full a level is: a fraction, used over its limit. A fraction with
/// the limit zero is beyond every number where anything is used, and no
/// number where nothing is.
#[derive(Clone, Copy, Debug, PartialEq, Eq, Structural)]
pub struct Score {
    /// What is used.
    pub used: usize,
    /// The limit.
    pub limit: usize,
}

impl Score {
    /// The score is one or more.
    pub open spec fn spec_is_full(self) -> bool {
        self.used > 0 && self.used >= self.limit
    }

    /// The score is a number, or beyond every number.
    pub open spec fn defined(self) -> bool {
        self.limit > 0 || self.used > 0
    }

    /// The score is above `other`: as fractions, where both are numbers; a
    /// score beyond every number is above every number; no score is above
    /// one that is beyond every number, and one that is no number is above
    /// none and below none.
    pub open spec fn spec_above(self, other: Score) -> bool {
        if !self.defined() || !other.defined() {
            false
        } else if other.limit == 0 {
            false
        } else if self.limit == 0 {
            true
        } else {
            self.used * other.limit > other.used * self.limit
        }
    }

    /// Whether the score is one or more.
    #[verifier::when_used_as_spec(spec_is_full)]
    pub fn is_full(self) -> (full: bool)
        ensures
            full == self.spec_is_full(),
    {
        self.used > 0 && self.used >= self.limit
    }

    /// Whether the score is above `other`.
    #[verifier::when_used_as_spec(spec_above)]
    pub fn above(self, other: Score) -> (above: bool)
        ensures
            above == self.spec_above(other),
    {
        if (self.limit == 0 && self.used == 0) || (other.limit == 0 && other.used == 0) {
            false
        } else if other.limit == 0 {
            false
        } else if self.limit == 0 {
            true
        } else {
            assert(self.used * other.limit <= usize::MAX * usize::MAX) by (nonlinear_arith)
                requires
                    self.used <= usize::MAX,
                    other.limit <= usize::MAX,
            ;
            assert(other.used * self.limit <= usize::MAX * usize::MAX) by (nonlinear_arith)
                requires
                    other.used <= usize::MAX,
                    self.limit <= usize::MAX,
            ;
            (self.used as u128) * (other.limit as u128) > (other.used as u128) * (self.limit as u128)
        }
    }

    /// The larger of two scores; the first where neither is above the
    /// other, and the one that is a number where only one is.
    pub fn max(self, other: Score) -> (larger: Score)
        ensures
            larger == if other.spec_above(self) || !self.defined() {
                other
            } else {
                self
            },
    {
        if other.above(self) || (self.limit == 0 && self.used == 0) {
            other
        } else {
            self
        }
    }
}

/// A score that is above one that is above a third is above the third.
pub proof fn lemma_above_transitive(a: Score, b: Score, c: Score)
    ensures
        a.spec_above(b) && b.spec_above(c) ==> a.spec_above(c),
{
    if a.spec_above(b) && b.spec_above(c) {
        if a.limit != 0 {
            assert(a.used * c.limit > c.used * a.limit) by (nonlinear_arith)
                requires
                    a.used * b.limit > b.used * a.limit,
                    b.used * c.limit > c.used * b.limit,
                    a.limit > 0,
                    b.limit > 0,
                    c.limit > 0,
                    a.used >= 0,
                    b.used >= 0,
                    c.used >= 0,
            ;
        }
    }
}

/// A level with its score.
#[derive(Clone, Copy, Debug, PartialEq, Eq, Structural)]
pub struct TaskPriority {
    /// The level.
    pub level: usize,
    /// How full the level is.
    pub score: Score,
}

impl TaskPriority {
    /// The priority of a level with a score.
    pub fn new(level: usize, score: Score) -> (priority: Self)
        ensures
            priority.level == level,
            priority.score == score,
    {
        Self { level, score }
    }
}

/// A compaction: tables of one level that are merged, with the tables of
/// the next level that they overlap, into new tables of the next level.
#[derive(Debug)]
pub struct Task {
    /// The level that is compacted.
    pub this_level_id: usize,
    /// The level that takes the result.
    pub next_level_id: usize,
    /// The tables of the level that is compacted.
    pub this_tables: Vec<Arc<SsTable>>,
    /// The tables of the next level that overlap them.
    pub next_tables: Vec<Arc<SsTable>>,
}

impl Default for Task {
    fn default() -> (task: Self)
        ensures
            task.this_level_id == 0,
            task.next_level_id == 0,
            task.this_tables@.len() == 0,
            task.next_tables@.len() == 0,
    {
        Task { this_level_id: 0, next_level_id: 0, this_tables: Vec::new(), next_tables: Vec::new() }
    }
}

impl Task {
    /// All tables of the task: those of the level that is compacted, then
    /// those of the next.
    pub open spec fn tables(&self) -> Seq<Arc<SsTable>> {
        self.this_tables@ + self.next_tables@
    }

    /// Every table of the task is well formed.
    pub open spec fn wf(&self) -> bool {
        forall|i: int| 0 <= i < self.tables().len() ==> (#[trigger] self.tables()[i]).wf()
    }
}

} // verus!
