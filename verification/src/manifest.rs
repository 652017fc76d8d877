//! The MANIFEST: an append-only log of the tables that are created and
//! deleted, from which the live tables are recovered.
//!
//! A record is `| 0 | u64 id | u8 level |` for a table that is created and
//! `| 1 | u64 id |` for one that is deleted.

use crate::endian::{get_u64, lemma_u64_round_trip, put_u64, u64_at, u64_be};
use crate::error::LsmError;
use std::collections::HashMap;
use vstd::prelude::*;

verus! {

broadcast use vstd::std_specs::hash::group_hash_axioms;

/// What a change does to a table.
#[derive(Clone, Copy, Debug, PartialEq, Eq, Structural)]
pub enum Operation {
    /// The table comes to a level.
    Create,
    /// The table leaves.
    Delete,
}

/// One change of the set of live tables.
#[derive(Clone, Copy, Debug, PartialEq, Eq, Structural)]
pub struct Change {
    op: Operation,
    table_id: u64,
    level: usize,
}

/// A set of changes that take effect together or not at all.
pub struct ManifestChangeSet {
    /// The changes, in the order in which they apply.
    pub changes: Vec<Change>,
}

impl Change {
    /// What the change does.
    pub closed spec fn op(self) -> Operation {
        self.op
    }

    /// The table that is changed.
    pub closed spec fn table_id(self) -> u64 {
        self.table_id
    }

    /// The level that the table comes to; zero for a table that leaves.
    pub closed spec fn level(self) -> usize {
        self.level
    }

    /// The change that brings the table `table_id` to the level `level`.
    pub closed spec fn created(table_id: u64, level: usize) -> Change {
        Change { op: Operation::Create, table_id, level }
    }

    /// The change that removes the table `table_id`.
    pub closed spec fn deleted(table_id: u64) -> Change {
        Change { op: Operation::Delete, table_id, level: 0 }
    }

    /// What the two kinds of changes are made of.
    pub proof fn lemma_made(table_id: u64, level: usize)
        ensures
            Self::created(table_id, level).op() == Operation::Create,
            Self::created(table_id, level).table_id() == table_id,
            Self::created(table_id, level).level() == level,
            Self::deleted(table_id).op() == Operation::Delete,
            Self::deleted(table_id).table_id() == table_id,
            Self::deleted(table_id).level() == 0,
    {
    }

    /// The change that brings the table `table_id` to the level `level`.
    pub fn create(table_id: u64, level: usize) -> (change: Self)
        ensures
            change == Self::created(table_id, level),
            change.op() == Operation::Create,
            change.table_id() == table_id,
            change.level() == level,
    {
        Self { op: Operation::Create, table_id, level }
    }

    /// The change that removes the table `table_id`.
    pub fn delete(table_id: u64) -> (change: Self)
        ensures
            change == Self::deleted(table_id),
            change.op() == Operation::Delete,
            change.table_id() == table_id,
            change.level() == 0,
    {
        Self { op: Operation::Delete, table_id, level: 0 }
    }

    /// The record of the change.
    pub open spec fn record(self) -> Seq<u8> {
        match self.op() {
            Operation::Create => seq![0u8] + u64_be(self.table_id()) + seq![self.level() as u8],
            Operation::Delete => seq![1u8] + u64_be(self.table_id()),
        }
    }

    /// The live tables after the change, or why the change is refused: a
    /// level that does not fit a byte, a table that is created while live,
    /// or one that is deleted while not.
    pub open spec fn applied(self, live: Map<u64, usize>) -> Result<Map<u64, usize>, LsmError> {
        match self.op() {
            Operation::Create => if self.level() > 0xFF {
                Err(LsmError::InvalidLevel)
            } else if live.contains_key(self.table_id()) {
                Err(LsmError::DuplicateTable { id: self.table_id() })
            } else {
                Ok(live.insert(self.table_id(), self.level()))
            },
            Operation::Delete => if live.contains_key(self.table_id()) {
                Ok(live.remove(self.table_id()))
            } else {
                Err(LsmError::UnknownTable { id: self.table_id() })
            },
        }
    }
}

/// The live tables after the changes from number `from` on, one after the
/// other, or why the first change that is refused is refused.
pub open spec fn applied_all(
    changes: Seq<Change>,
    from: int,
    live: Map<u64, usize>,
) -> Result<Map<u64, usize>, LsmError>
    decreases changes.len() - from,
{
    if from < 0 || from >= changes.len() {
        Ok(live)
    } else {
        match changes[from].applied(live) {
            Ok(next) => applied_all(changes, from + 1, next),
            Err(e) => Err(e),
        }
    }
}

/// The records of the changes before number `to`, one after the other.
pub open spec fn records(changes: Seq<Change>, to: int) -> Seq<u8>
    decreases to,
{
    if to <= 0 {
        Seq::empty()
    } else {
        records(changes, to - 1) + changes[to - 1].record()
    }
}

/// What a replay has found: the live tables with their levels, and the ids
/// that were created at level 0, in the order of their records.
pub struct Replayed {
    pub live: Map<u64, usize>,
    pub level0: Seq<u64>,
}

/// What the replay of the log from `at` on finds, starting from `state`: a
/// record that creates a table sets its level, a record that deletes one
/// removes it.
pub open spec fn replayed(log: Seq<u8>, at: int, state: Replayed) -> Result<Replayed, LsmError>
    decreases log.len() - at,
{
    if at < 0 || at >= log.len() {
        Ok(state)
    } else if log[at] == 0 {
        if at + 10 > log.len() {
            Err(LsmError::Truncated)
        } else {
            let id = u64_at(log, at + 1);
            let level = log[at + 9] as usize;
            replayed(
                log,
                at + 10,
                Replayed {
                    live: state.live.insert(id, level),
                    level0: if level == 0 {
                        state.level0.push(id)
                    } else {
                        state.level0
                    },
                },
            )
        }
    } else if log[at] == 1 {
        if at + 9 > log.len() {
            Err(LsmError::Truncated)
        } else {
            replayed(
                log,
                at + 9,
                Replayed { live: state.live.remove(u64_at(log, at + 1)), level0: state.level0 },
            )
        }
    } else {
        Err(LsmError::MalformedManifest)
    }
}

/// The state of a replay before any record.
pub open spec fn nothing_replayed() -> Replayed {
    Replayed { live: Map::empty(), level0: Seq::empty() }
}

/// The live tables that the replay of a whole log finds.
pub open spec fn live_of(log: Seq<u8>) -> Result<Map<u64, usize>, LsmError> {
    match replayed(log, 0, nothing_replayed()) {
        Ok(found) => Ok(found.live),
        Err(e) => Err(e),
    }
}

/// A log that replays from `at` on replays the same with more behind it,
/// up to its own end.
pub proof fn lemma_replay_extended(log: Seq<u8>, more: Seq<u8>, at: int, state: Replayed)
    requires
        0 <= at <= log.len(),
        replayed(log, at, state) is Ok,
    ensures
        replayed(log + more, at, state) == replayed(
            log + more,
            log.len() as int,
            replayed(log, at, state)->Ok_0,
        ),
    decreases log.len() - at,
{
    let long = log + more;
    if at < log.len() {
        assert(long[at] == log[at]);
        if log[at] == 0 {
            assert(long[at + 9] == log[at + 9]);
            assert(u64_at(long, at + 1) == u64_at(log, at + 1)) by {
                assert(long.subrange(at + 1, at + 9) =~= log.subrange(at + 1, at + 9));
                assert forall|k: int| at + 1 <= k < at + 9 implies long[k] == log[k] by {}
            }
            let id = u64_at(log, at + 1);
            let level = log[at + 9] as usize;
            lemma_replay_extended(
                log,
                more,
                at + 10,
                Replayed {
                    live: state.live.insert(id, level),
                    level0: if level == 0 {
                        state.level0.push(id)
                    } else {
                        state.level0
                    },
                },
            );
        } else {
            assert(log[at] == 1);
            assert(u64_at(long, at + 1) == u64_at(log, at + 1)) by {
                assert forall|k: int| at + 1 <= k < at + 9 implies long[k] == log[k] by {}
            }
            lemma_replay_extended(
                log,
                more,
                at + 9,
                Replayed { live: state.live.remove(u64_at(log, at + 1)), level0: state.level0 },
            );
        }
    }
}

/// The replay of one record behind a log does to the live tables what the
/// change of the record does.
pub proof fn lemma_replay_record(log: Seq<u8>, change: Change, state: Replayed)
    requires
        change.applied(state.live) is Ok,
    ensures
        replayed(log + change.record(), log.len() as int, state) is Ok,
        replayed(log + change.record(), log.len() as int, state)->Ok_0.live == change.applied(
            state.live,
        )->Ok_0,
{
    reveal_with_fuel(replayed, 2);
    let long = log + change.record();
    let at = log.len() as int;
    let id = change.table_id();
    match change.op() {
        Operation::Create => {
            let level = change.level() as u8;
            lemma_u64_round_trip(log + seq![0u8], id, seq![level]);
            assert(long =~= (log + seq![0u8]) + u64_be(id) + seq![level]);
            assert(long[at] == 0);
            assert(long[at + 9] == level);
            assert(u64_at(long, at + 1) == id);
            assert(long.len() == at + 10);
        },
        Operation::Delete => {
            lemma_u64_round_trip(log + seq![1u8], id, Seq::empty());
            assert(long =~= (log + seq![1u8]) + u64_be(id) + Seq::empty());
            assert(long[at] == 1);
            assert(u64_at(long, at + 1) == id);
            assert(long.len() == at + 9);
        },
    }
}

/// A change that is applied and logged shows in the replay of the log: the
/// live tables that the log with the record replays to are those that the
/// change makes of the ones before.
pub proof fn lemma_logged_change(log: Seq<u8>, change: Change)
    requires
        live_of(log) is Ok,
        change.applied(live_of(log)->Ok_0) is Ok,
    ensures
        live_of(log + change.record()) == change.applied(live_of(log)->Ok_0),
{
    let state = replayed(log, 0, nothing_replayed())->Ok_0;
    lemma_replay_extended(log, change.record(), 0, nothing_replayed());
    lemma_replay_record(log, change, state);
}

/// The MANIFEST as the engine holds it: the live tables, and the records
/// that are not yet on disk.
pub struct ManifestFile {
    map: HashMap<u64, usize>,
    pending: Vec<u8>,
    log: Ghost<Seq<u8>>,
}

impl ManifestFile {
    /// The live tables and their levels.
    pub closed spec fn live(&self) -> Map<u64, usize> {
        self.map@
    }

    /// All the bytes of the log: those that were read when it was opened
    /// and those of the records that were appended since.
    pub closed spec fn log(&self) -> Seq<u8> {
        self.log@
    }

    /// The bytes of the records that were appended and not yet taken to be
    /// written: the end of the log.
    pub closed spec fn pending(&self) -> Seq<u8> {
        self.pending@
    }

    /// What holds of every MANIFEST: the live tables are what the replay of
    /// its log finds.
    pub closed spec fn wf(&self) -> bool {
        &&& live_of(self.log@) == Ok::<Map<u64, usize>, LsmError>(self.map@)
        &&& self.pending@.len() <= self.log@.len()
        &&& self.pending@ == self.log@.subrange(
            self.log@.len() - self.pending@.len(),
            self.log@.len() as int,
        )
    }

    /// Reopening the log of a MANIFEST gives its live tables again.
    pub proof fn lemma_reopen(&self)
        requires
            self.wf(),
        ensures
            live_of(self.log()) == Ok::<Map<u64, usize>, LsmError>(self.live()),
    {
    }

    /// A copy of the live tables and their levels.
    pub fn get_id_level(&self) -> (live: HashMap<u64, usize>)
        ensures
            live@ == self.live(),
    {
        self.map.clone()
    }

    /// The number of live tables.
    pub fn len(&self) -> (n: usize)
        ensures
            n == self.live().dom().len(),
            self.live().dom().finite(),
    {
        self.map.len()
    }

    /// The level of the table `id`, where it is live.
    pub fn level_of(&self, id: u64) -> (level: Option<usize>)
        ensures
            level == if self.live().contains_key(id) {
                Some(self.live()[id])
            } else {
                None
            },
    {
        match self.map.get(&id) {
            Some(level) => Some(*level),
            None => None,
        }
    }

    /// Replays the bytes of a MANIFEST file; no bytes are an empty
    /// MANIFEST.
    ///
    /// Gives the MANIFEST and the ids that were created at level 0, in the
    /// order of their records, deleted or not. Fails with `Truncated` where
    /// the bytes end inside a record and with `MalformedManifest` where a
    /// record starts with a byte that names no operation.
    pub fn open(bytes: &[u8]) -> (r: Result<(Self, Vec<u64>), LsmError>)
        ensures
            match r {
                Ok((manifest, level0)) => {
                    &&& manifest.wf()
                    &&& manifest.log() == bytes@
                    &&& manifest.pending().len() == 0
                    &&& replayed(bytes@, 0, nothing_replayed()) == Ok::<Replayed, LsmError>(
                        Replayed { live: manifest.live(), level0: level0@ },
                    )
                },
                Err(e) => replayed(bytes@, 0, nothing_replayed()) == Err::<Replayed, LsmError>(e),
            },
    {
        let mut map: HashMap<u64, usize> = HashMap::new();
        let mut ids: Vec<u64> = Vec::new();
        let n = bytes.len();
        let mut at: usize = 0;
        while at < n
            invariant
                at <= n == bytes@.len(),
                replayed(bytes@, 0, nothing_replayed()) == replayed(
                    bytes@,
                    at as int,
                    Replayed { live: map@, level0: ids@ },
                ),
            decreases n - at,
        {
            let op = bytes[at];
            if op == 0 {
                if n - at < 10 {
                    return Err(LsmError::Truncated);
                }
                let id = get_u64(bytes, at + 1);
                let level = bytes[at + 9] as usize;
                map.insert(id, level);
                if level == 0 {
                    ids.push(id);
                }
                at += 10;
            } else if op == 1 {
                if n - at < 9 {
                    return Err(LsmError::Truncated);
                }
                let id = get_u64(bytes, at + 1);
                map.remove(&id);
                at += 9;
            } else {
                return Err(LsmError::MalformedManifest);
            }
        }
        let manifest = Self { map, pending: Vec::new(), log: Ghost(bytes@) };
        assert(manifest.pending@ =~= manifest.log@.subrange(
            manifest.log@.len() - manifest.pending@.len(),
            manifest.log@.len() as int,
        ));
        Ok((manifest, ids))
    }

    /// Applies a set of changes, all or none.
    ///
    /// Where every change applies to what the changes before it leave, the
    /// live tables change accordingly and the records of all changes go to
    /// the end of the log. Where one is refused, its error comes back and
    /// nothing has changed.
    pub fn apply_change_set(&mut self, change_set: &ManifestChangeSet) -> (r: Result<
        (),
        LsmError,
    >)
        requires
            old(self).wf(),
        ensures
            final(self).wf(),
            match applied_all(change_set.changes@, 0, old(self).live()) {
                Ok(live) => {
                    &&& r is Ok
                    &&& final(self).live() == live
                    &&& final(self).log() == old(self).log() + records(
                        change_set.changes@,
                        change_set.changes@.len() as int,
                    )
                    &&& final(self).pending() == old(self).pending() + records(
                        change_set.changes@,
                        change_set.changes@.len() as int,
                    )
                },
                Err(e) => {
                    &&& r == Err::<(), LsmError>(e)
                    &&& final(self).live() == old(self).live()
                    &&& final(self).log() == old(self).log()
                    &&& final(self).pending() == old(self).pending()
                },
            },
    {
        let ghost changes = change_set.changes@;
        let mut next = Self { map: self.map.clone(), pending: Vec::new(), log: Ghost(self.log@) };
        assert(next.pending@ =~= next.log@.subrange(
            next.log@.len() - next.pending@.len(),
            next.log@.len() as int,
        ));
        let mut i: usize = 0;
        while i < change_set.changes.len()
            invariant
                i <= changes.len(),
                changes == change_set.changes@,
                *self == *old(self),
                self.wf(),
                next.wf(),
                next.log@ == old(self).log@ + records(changes, i as int),
                next.pending@ == records(changes, i as int),
                applied_all(changes, 0, old(self).live()) == applied_all(
                    changes,
                    i as int,
                    next.live(),
                ),
            decreases changes.len() - i,
        {
            match next.apply_change(&change_set.changes[i]) {
                Ok(()) => {},
                Err(e) => { return Err(e); },
            }
            assert(next.log@ =~= old(self).log@ + records(changes, i + 1));
            assert(next.pending@ =~= records(changes, i + 1));
            i += 1;
        }
        self.map = next.map;
        self.log = next.log;
        crate::endian::put_slice(&mut self.pending, next.pending.as_slice());
        assert(self.pending@ =~= self.log@.subrange(
            self.log@.len() - self.pending@.len(),
            self.log@.len() as int,
        ));
        Ok(())
    }

    /// Applies one change.
    ///
    /// Where the change applies, the live tables change accordingly and the
    /// record of the change goes to the end of the log. Where it is
    /// refused, its error comes back and nothing has changed.
    pub fn apply_change(&mut self, change: &Change) -> (r: Result<(), LsmError>)
        requires
            old(self).wf(),
        ensures
            final(self).wf(),
            match change.applied(old(self).live()) {
                Ok(live) => {
                    &&& r is Ok
                    &&& final(self).live() == live
                    &&& final(self).log() == old(self).log() + change.record()
                    &&& final(self).pending() == old(self).pending() + change.record()
                },
                Err(e) => {
                    &&& r == Err::<(), LsmError>(e)
                    &&& final(self).live() == old(self).live()
                    &&& final(self).log() == old(self).log()
                    &&& final(self).pending() == old(self).pending()
                },
            },
    {
        let id = change.table_id;
        let level = change.level;
        let ghost old_log = self.log@;
        let ghost old_pending = self.pending@;
        match change.op {
            Operation::Create => {
                if level > 0xFF {
                    return Err(LsmError::InvalidLevel);
                }
                if self.map.contains_key(&id) {
                    return Err(LsmError::DuplicateTable { id });
                }
                self.pending.push(0u8);
                put_u64(&mut self.pending, id);
                self.pending.push(level as u8);
                self.map.insert(id, level);
            },
            Operation::Delete => {
                if !self.map.contains_key(&id) {
                    return Err(LsmError::UnknownTable { id });
                }
                self.pending.push(1u8);
                put_u64(&mut self.pending, id);
                self.map.remove(&id);
            },
        }
        proof {
            self.log@ = old_log + change.record();
            assert(self.pending@ =~= old_pending + change.record());
            lemma_logged_change(old_log, *change);
            assert(self.pending@ =~= self.log@.subrange(
                self.log@.len() - self.pending@.len(),
                self.log@.len() as int,
            ));
        }
        Ok(())
    }

    /// Hands out the records that are to be written to the file, and keeps
    /// none of them.
    pub fn take_pending(&mut self) -> (bytes: Vec<u8>)
        requires
            old(self).wf(),
        ensures
            final(self).wf(),
            bytes@ == old(self).pending(),
            final(self).pending().len() == 0,
            final(self).live() == old(self).live(),
            final(self).log() == old(self).log(),
    {
        let mut bytes: Vec<u8> = Vec::new();
        std::mem::swap(&mut bytes, &mut self.pending);
        assert(self.pending@ =~= self.log@.subrange(
            self.log@.len() - self.pending@.len(),
            self.log@.len() as int,
        ));
        bytes
    }
}

} // verus!
