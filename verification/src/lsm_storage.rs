//! The engine: writes go to the memtable that takes them, reads look in
//! the memtables, the newest first, and then in the levels.
//!
//! The engine holds its files as bytes. What is to be written to the files
//! of the database is handed out: the records of the logs and of the
//! MANIFEST, and the tables that flushes and compactions make.

use crate::error::LsmError;
use crate::iterators::merge_iterator::{merged, MergeIterator};
use crate::iterators::two_merge_iterator::TwoMergeIterator;
use crate::iterators::StorageIterator;
use crate::level::{shown, stored_value, view_of, Compacted, LevelController};
use crate::lsm_iterator::{FusedIterator, LsmIterator};
use crate::mem_table::{mem_value, MemTable, MemTableIterator, MemTables};
use crate::opt::LsmOptions;
use crate::table::builder::SsTableBuilder;
use crate::table::file_object::FileObject;
use crate::table::iterator::SsTableIterator;
use crate::table::SsTable;
use std::collections::VecDeque;
use std::ops::Bound;
use std::sync::Arc;
use vstd::prelude::*;

verus! {

/// A batch of writes that waits to be applied, with the means to answer
/// the one who asked for it.
pub struct Request<S> {
    /// The entries to write.
    pub entries: Vec<(Vec<u8>, Vec<u8>)>,
    /// Where the answer goes, if one is wanted.
    pub sender: Option<S>,
}

/// What a flush has done: the table that it has made, and the numbers of
/// the memtables that went into it, whose logs are no longer needed.
pub struct Flushed {
    /// The new table of level 0; none where the memtables were empty.
    pub table: Option<Arc<SsTable>>,
    /// The numbers of the memtables that were flushed.
    pub logs: Vec<usize>,
}

/// The state of the engine.
pub struct LsmStorageInner {
    memtables: MemTables,
    lvctl: LevelController,
    opts: LsmOptions,
}

/// What a reader is shown of a value of a memtable.
pub open spec fn seen(found: Option<Seq<u8>>, below: Option<Seq<u8>>) -> Option<Seq<u8>> {
    match found {
        Some(value) => shown(Some(value)),
        None => below,
    }
}

impl LsmStorageInner {
    /// The memtables.
    pub closed spec fn memtables(&self) -> MemTables {
        self.memtables
    }

    /// The levels.
    pub closed spec fn lvctl(&self) -> LevelController {
        self.lvctl
    }

    /// The options.
    pub closed spec fn options(&self) -> LsmOptions {
        self.opts
    }

    /// What holds of the engine at all times.
    pub open spec fn wf(&self) -> bool {
        &&& self.memtables().wf()
        &&& self.lvctl().wf()
        &&& self.memtables().active().wal().is_writer()
        &&& self.lvctl().inner().options() == self.options()
    }

    /// The value that a reader is shown for the key: that of the newest
    /// memtable that has the key, else that which the levels have stored;
    /// nothing where that value is empty.
    pub open spec fn lookup(&self, key: Seq<u8>) -> Option<Seq<u8>> {
        seen(
            self.memtables().value_of(key),
            shown(stored_value(self.lvctl().inner().levels(), key)),
        )
    }

    /// What holds of the engine of a database that was opened: its levels
    /// are those of the MANIFEST and the table files, see
    /// `LevelController::opened`, and its memtables those of the logs, see
    /// `MemTables::opened`.
    pub open spec fn opened(
        inner: Self,
        opts: LsmOptions,
        manifest: Seq<u8>,
        files: Seq<(u64, FileObject)>,
        logs: Seq<(usize, Vec<u8>)>,
    ) -> bool {
        &&& inner.wf()
        &&& inner.options() == opts
        &&& LevelController::opened(inner.lvctl(), opts, manifest, files)
        &&& MemTables::opened(inner.memtables(), opts, logs)
    }

    /// The engine of a database with the given MANIFEST, table files and
    /// logs; see `LevelsControllerInner::new` and `MemTables::new`. It
    /// opens where the levels open and the numbers of the logs leave room
    /// for a new memtable.
    pub fn create(
        opts: LsmOptions,
        manifest: &[u8],
        files: Vec<(u64, FileObject)>,
        logs: Vec<(usize, Vec<u8>)>,
    ) -> (r: Result<Self, LsmError>)
        ensures
            r matches Ok(inner) ==> Self::opened(inner, opts, manifest@, files@, logs@),
            r is Ok <==> crate::level::opens(opts, manifest@, files@) && (forall|k: int|
                0 <= k < logs@.len() ==> (#[trigger] logs@[k]).0 < usize::MAX - 1),
    {
        let memtables = match MemTables::new(opts.duplicate(), logs) {
            Ok(memtables) => memtables,
            Err(e) => { return Err(e); },
        };
        let lvctl = match LevelController::open(opts.duplicate(), manifest, files) {
            Ok(lvctl) => lvctl,
            Err(e) => { return Err(e); },
        };
        Ok(Self { memtables, lvctl, opts })
    }

    /// A write has come to the memtable that takes the writes: its log has
    /// the record `record` more, its sequence number is one more, and its
    /// entries are `entries`; nothing else has changed.
    pub open spec fn written(
        before: Self,
        after: Self,
        entries: Map<Seq<u8>, (Seq<u8>, u64)>,
        record: Seq<u8>,
    ) -> bool {
        let had = before.memtables();
        let has = after.memtables();
        &&& after.wf()
        &&& after.lvctl() == before.lvctl()
        &&& after.options() == before.options()
        &&& has.immutables() == had.immutables()
        &&& has.next_id() == had.next_id()
        &&& has.active().id() == had.active().id()
        &&& has.active().wal().is_writer()
        &&& has.active().wal().sequence() == had.active().wal().sequence() + 1
        &&& has.active().wal().log() == had.active().wal().log() + record
        &&& has.active().entries() == entries
    }

    /// The memtable that takes the writes has outgrown its size.
    pub open spec fn overfull(&self) -> bool {
        self.memtables().active().spec_size() > self.options().memtable_size
    }

    /// A write was done: it has come to the memtable that takes the
    /// writes, see `written`, and where that memtable has then outgrown
    /// its size, a new memtable has taken the writes, see `rotated`.
    pub open spec fn write_done(
        before: Self,
        after: Self,
        entries: Map<Seq<u8>, (Seq<u8>, u64)>,
        record: Seq<u8>,
    ) -> bool {
        exists|middle: Self| #[trigger]
            Self::written(before, middle, entries, record) && if middle.overfull() {
                Self::rotated(middle, after)
            } else {
                after == middle
            }
    }

    /// Why a write of entries fails, if it does: with `EmptyKey` where an
    /// entry has no key, and else with `Overflow` where a part of an entry
    /// does not fit its field, the numbers of the memtables are exhausted,
    /// or the count of the appends to the log is.
    pub open spec fn put_error(&self, batch: Seq<(Seq<u8>, Seq<u8>)>) -> Option<LsmError> {
        if !crate::mem_table::keyed(batch) {
            Some(LsmError::EmptyKey)
        } else if !crate::wal::storable(batch) || self.memtables().next_id() == usize::MAX
            || self.memtables().active().wal().sequence() == u64::MAX {
            Some(LsmError::Overflow)
        } else {
            None
        }
    }

    /// The entries of the memtable that takes the writes, with one more
    /// write of a key.
    pub open spec fn with_write(&self, key: Seq<u8>, value: Seq<u8>) -> Map<Seq<u8>, (Seq<u8>, u64)> {
        self.memtables().active().entries().insert(
            key,
            (value, (self.memtables().active().wal().sequence() + 1) as u64),
        )
    }

    /// The value that a reader is shown for the key.
    ///
    /// Fails with `EmptyKey` for an empty key. A key that a memtable has is
    /// answered from the newest memtable that has it; for any other the
    /// levels are asked, which answer rightly where every table is sound.
    pub fn get(&self, key: &[u8]) -> (r: Result<Option<Vec<u8>>, LsmError>)
        requires
            self.wf(),
        ensures
            key@.len() == 0 ==> r == Err::<Option<Vec<u8>>, LsmError>(LsmError::EmptyKey),
            key@.len() > 0 && (self.memtables().value_of(key@) is Some
                || self.lvctl().inner().all_sound()) ==> r is Ok && view_of(r->Ok_0)
                == self.lookup(key@),
    {
        if key.len() == 0 {
            return Err(LsmError::EmptyKey);
        }
        let view = self.memtables.view();
        let ghost all = self.memtables().all();
        let mut i: usize = view.len();
        while i > 0
            invariant
                i <= view@.len() == all.len(),
                key@.len() > 0,
                all == self.memtables().all(),
                forall|k: int| 0 <= k < view@.len() ==> *(#[trigger] view@[k]) == all[k],
                mem_value(all, key@, all.len() as int) == mem_value(all, key@, i as int),
            decreases i,
        {
            i -= 1;
            assert(*view@[i as int] == all[i as int]);
            match view[i].get(key) {
                Some(value) => {
                    if value.is_empty() {
                        return Ok(None);
                    }
                    return Ok(Some(value));
                },
                None => {},
            }
        }
        self.lvctl.get(key)
    }

    /// Stores a value for a key.
    ///
    /// Fails with `EmptyKey` for an empty key and with `EmptyValue` for an
    /// empty value, and else only where the key or the value is longer than
    /// a record can hold or a count is exhausted. Once it has succeeded,
    /// readers are shown the value for the key, and for every other key
    /// what they were shown before.
    pub fn put(&mut self, key: &[u8], value: &[u8]) -> (r: Result<(), LsmError>)
        requires
            old(self).wf(),
        ensures
            final(self).wf(),
            final(self).lvctl() == old(self).lvctl(),
            final(self).options() == old(self).options(),
            key@.len() == 0 ==> r == Err::<(), LsmError>(LsmError::EmptyKey),
            key@.len() > 0 && value@.len() == 0 ==> r == Err::<(), LsmError>(LsmError::EmptyValue),
            0 < key@.len() <= 0xFFFF && 0 < value@.len() <= 0xFFFF
                && old(self).memtables().active().wal().sequence() < u64::MAX
                && old(self).memtables().next_id() < usize::MAX ==> r is Ok,
            key@.len() > 0 && value@.len() > 0 && (key@.len() > 0xFFFF || value@.len() > 0xFFFF)
                ==> r == Err::<(), LsmError>(LsmError::Overflow),
            r matches Err(e) ==> e == LsmError::EmptyKey || e == LsmError::EmptyValue || e
                == LsmError::Overflow,
            r is Ok ==> final(self).lookup(key@) == Some(value@),
            forall|other: Seq<u8>|
                other != key@ || key@.len() == 0 || value@.len() == 0
                    ==> #[trigger] final(self).lookup(other) == old(self).lookup(other),
            crate::mem_table::error_of(r) == if key@.len() == 0 {
                Some(LsmError::EmptyKey)
            } else if value@.len() == 0 {
                Some(LsmError::EmptyValue)
            } else {
                old(self).put_error(seq![(key@, value@)])
            },
            r is Err ==> *final(self) == *old(self),
            r is Ok ==> final(self).memtables().value_of(key@) == Some(value@)
                && Self::write_done(
                *old(self),
                *final(self),
                old(self).with_write(key@, value@),
                crate::block::encoded_entry(key@, value@),
            ),
    {
        if key.len() == 0 {
            return Err(LsmError::EmptyKey);
        }
        if value.len() == 0 {
            return Err(LsmError::EmptyValue);
        }
        self.do_put(key, value)
    }

    /// Deletes a key: stores the empty value for it.
    ///
    /// Fails with `EmptyKey` for an empty key, and else only where the key
    /// is longer than a record can hold or a count is exhausted. Once it
    /// has succeeded, readers are shown nothing for the key, and for every
    /// other key what they were shown before.
    pub fn delete(&mut self, key: &[u8]) -> (r: Result<(), LsmError>)
        requires
            old(self).wf(),
        ensures
            final(self).wf(),
            final(self).lvctl() == old(self).lvctl(),
            final(self).options() == old(self).options(),
            key@.len() == 0 ==> r == Err::<(), LsmError>(LsmError::EmptyKey),
            0 < key@.len() <= 0xFFFF && old(self).memtables().active().wal().sequence() < u64::MAX
                && old(self).memtables().next_id() < usize::MAX ==> r is Ok,
            key@.len() > 0xFFFF ==> r == Err::<(), LsmError>(LsmError::Overflow),
            r matches Err(e) ==> e == LsmError::EmptyKey || e == LsmError::Overflow,
            r is Ok ==> final(self).lookup(key@) is None,
            forall|other: Seq<u8>|
                other != key@ || key@.len() == 0
                    ==> #[trigger] final(self).lookup(other) == old(self).lookup(other),
            crate::mem_table::error_of(r) == if key@.len() == 0 {
                Some(LsmError::EmptyKey)
            } else {
                old(self).put_error(seq![(key@, Seq::<u8>::empty())])
            },
            r is Err ==> *final(self) == *old(self),
            r is Ok ==> final(self).memtables().value_of(key@) == Some(Seq::<u8>::empty())
                && Self::write_done(
                *old(self),
                *final(self),
                old(self).with_write(key@, Seq::<u8>::empty()),
                crate::block::encoded_entry(key@, Seq::<u8>::empty()),
            ),
    {
        if key.len() == 0 {
            return Err(LsmError::EmptyKey);
        }
        let empty: Vec<u8> = Vec::new();
        self.do_put(key, empty.as_slice())
    }

    /// Stores a batch of entries in one write to the log; of two entries
    /// of one key the first stays. An entry with an empty value deletes its
    /// key.
    ///
    /// Fails with `EmptyKey` where a key is empty, with `Overflow` where a
    /// key or a value is longer than a record can hold, and where a count
    /// is exhausted.
    pub fn batch_put(&mut self, entries: &[(Vec<u8>, Vec<u8>)]) -> (r: Result<(), LsmError>)
        requires
            old(self).wf(),
        ensures
            final(self).wf(),
            !crate::mem_table::keyed(crate::wal::Wal::entries_view(entries@)) ==> r == Err::<
                (),
                LsmError,
            >(LsmError::EmptyKey),
            crate::mem_table::keyed(crate::wal::Wal::entries_view(entries@))
                && !crate::wal::storable(crate::wal::Wal::entries_view(entries@)) ==> r == Err::<
                (),
                LsmError,
            >(LsmError::Overflow),
            r matches Err(e) ==> e == LsmError::EmptyKey || e == LsmError::Overflow,
            crate::mem_table::keyed(crate::wal::Wal::entries_view(entries@))
                && crate::wal::storable(crate::wal::Wal::entries_view(entries@))
                && old(self).memtables().active().wal().sequence() < u64::MAX
                && old(self).memtables().next_id() < usize::MAX ==> r is Ok,
            final(self).lvctl() == old(self).lvctl(),
            final(self).options() == old(self).options(),
            crate::mem_table::error_of(r) == old(self).put_error(
                crate::wal::Wal::entries_view(entries@),
            ),
            r is Err ==> *final(self) == *old(self),
            r is Ok ==> Self::write_done(
                *old(self),
                *final(self),
                MemTable::batch_onto(
                    crate::wal::Wal::entries_view(entries@),
                    0,
                    old(self).memtables().active().entries(),
                    (old(self).memtables().active().wal().sequence() + 1) as u64,
                ),
                crate::wal::wal_records(crate::wal::Wal::entries_view(entries@)),
            ),
            r is Ok ==> forall|key: Seq<u8>| #[trigger]
                final(self).lookup(key) == match crate::mem_table::batch_first(
                    crate::wal::Wal::entries_view(entries@),
                    key,
                    0,
                ) {
                    Some(value) => shown(Some(value)),
                    None => old(self).lookup(key),
                },
            r is Err ==> forall|key: Seq<u8>| #[trigger]
                final(self).lookup(key) == old(self).lookup(key) || crate::mem_table::batch_first(
                    crate::wal::Wal::entries_view(entries@),
                    key,
                    0,
                ) is Some,
    {
        if self.memtables.exhausted() {
            return match first_fault(entries) {
                Some(e) => Err(e),
                None => Err(LsmError::Overflow),
            };
        }
        let put = self.memtables.put_entries(entries);
        assert(self.lvctl == old(self).lvctl);
        assert(self.opts == old(self).opts);
        match put {
            Ok(()) => {},
            Err(e) => { return Err(e); },
        }
        let size = self.memtables.active_size();
        let ghost middle = *self;
        assert(Self::written(
            *old(self),
            middle,
            MemTable::batch_onto(
                crate::wal::Wal::entries_view(entries@),
                0,
                old(self).memtables().active().entries(),
                (old(self).memtables().active().wal().sequence() + 1) as u64,
            ),
            crate::wal::wal_records(crate::wal::Wal::entries_view(entries@)),
        ));
        let r = self.may_use_new_table(size);
        proof {
            assert(middle.overfull() == middle.outgrown(size));
        }
        r
    }

    /// As many memtables wait as a regular flush waits for.
    pub open spec fn flush_due(&self) -> bool {
        self.memtables().immutables().len() >= self.options().min_memtable_to_merge
    }

    /// So many memtables wait that a flush is urgent: one less than the
    /// most memtables that an engine is to hold.
    pub open spec fn flush_urgent(&self) -> bool {
        self.options().max_memtable_num > 0 && self.memtables().immutables().len()
            >= self.options().max_memtable_num - 1
    }

    /// What a round of the flush worker has done: a flush where one was
    /// due, see `flushed`, and else nothing.
    pub open spec fn flush_round(
        before: Self,
        after: Self,
        r: Result<Option<Flushed>, LsmError>,
        due: bool,
    ) -> bool {
        if due {
            Self::flushed(before, after, r)
        } else {
            r matches Ok(None) && after == before
        }
    }

    /// A new memtable has taken the writes, and the one that took them has
    /// become the newest of those that wait to be flushed.
    pub open spec fn rotated(before: Self, after: Self) -> bool {
        let had = before.memtables();
        let has = after.memtables();
        &&& after.lvctl() == before.lvctl()
        &&& after.options() == before.options()
        &&& after.wf()
        &&& has.immutables().len() == had.immutables().len() + 1
        &&& forall|i: int|
            0 <= i < had.immutables().len() ==> #[trigger] has.immutables()[i]
                == had.immutables()[i]
        &&& has.immutables().last().entries() == had.active().entries()
        &&& has.immutables().last().id() == had.active().id()
        &&& has.active().entries() == crate::mem_table::no_entries()
        &&& has.active().id() == had.next_id()
        &&& has.next_id() == had.next_id() + 1
    }

    /// Flushes the memtables that wait, if they are as many as a flush
    /// waits for.
    pub fn run_once(&mut self) -> (r: Result<Option<Flushed>, LsmError>)
        requires
            old(self).wf(),
        ensures
            final(self).wf(),
            final(self).options() == old(self).options(),
            forall|key: Seq<u8>| #[trigger] final(self).lookup(key) == old(self).lookup(key),
            old(self).lvctl().inner().all_sound() ==> final(self).lvctl().inner().all_sound(),
            r matches Ok(None) ==> final(self).memtables() == old(self).memtables()
                && final(self).lvctl() == old(self).lvctl(),
            old(self).memtables().immutables().len() < old(self).options().min_memtable_to_merge
                ==> r matches Ok(None),
            Self::flush_round(*old(self), *final(self), r, old(self).flush_due()),
    {
        if self.memtables.imm_len() < self.opts.min_memtable_to_merge {
            return Ok(None);
        }
        self.flush_immutables()
    }

    /// Flushes the memtables that wait, if they are so many that a flush is
    /// urgent: one less than the most memtables that an engine is to hold.
    pub fn full_run(&mut self) -> (r: Result<Option<Flushed>, LsmError>)
        requires
            old(self).wf(),
        ensures
            final(self).wf(),
            final(self).options() == old(self).options(),
            forall|key: Seq<u8>| #[trigger] final(self).lookup(key) == old(self).lookup(key),
            old(self).lvctl().inner().all_sound() ==> final(self).lvctl().inner().all_sound(),
            r matches Ok(None) ==> final(self).memtables() == old(self).memtables()
                && final(self).lvctl() == old(self).lvctl(),
            old(self).memtables().immutables().len() + 1 < old(self).options().max_memtable_num
                ==> r matches Ok(None),
            Self::flush_round(*old(self), *final(self), r, old(self).flush_urgent()),
    {
        let len = self.memtables.imm_len();
        if self.opts.max_memtable_num == 0 || len < self.opts.max_memtable_num - 1 {
            return Ok(None);
        }
        self.flush_immutables()
    }

    /// One round of the flush worker: the regular flush, or the urgent one.
    pub fn start_flush(&mut self, urgent: bool) -> (r: Result<Option<Flushed>, LsmError>)
        requires
            old(self).wf(),
        ensures
            final(self).wf(),
            final(self).options() == old(self).options(),
            forall|key: Seq<u8>| #[trigger] final(self).lookup(key) == old(self).lookup(key),
            old(self).lvctl().inner().all_sound() ==> final(self).lvctl().inner().all_sound(),
            r matches Ok(None) ==> final(self).memtables() == old(self).memtables()
                && final(self).lvctl() == old(self).lvctl(),
            Self::flush_round(
                *old(self),
                *final(self),
                r,
                if urgent {
                    old(self).flush_urgent()
                } else {
                    old(self).flush_due()
                },
            ),
    {
        if urgent {
            self.full_run()
        } else {
            self.run_once()
        }
    }

    /// What a flush has done: where no memtable waited, nothing, and it
    /// gives nothing. Else the memtables that waited are dropped and their
    /// numbers given, and a table of level 0 holds their entries, see
    /// `waiting_entries`, under the next id; there is no table where they
    /// had no entry. After an error the memtables wait on and the levels
    /// are as they were. Whether a flush fails, and with what, is what
    /// `flush_error` says.
    pub open spec fn flushed(before: Self, after: Self, r: Result<Option<Flushed>, LsmError>) -> bool {
        let waiting = before.memtables().immutables();
        let entries = crate::mem_table::waiting_entries(waiting);
        let had = before.lvctl().inner();
        let has = after.lvctl().inner();
        &&& after.options() == before.options()
        &&& after.memtables().active() == before.memtables().active()
        &&& match r {
            Ok(None) => waiting.len() == 0 && after.memtables() == before.memtables()
                && after.lvctl() == before.lvctl(),
            Ok(Some(flushed)) => {
                &&& waiting.len() > 0
                &&& after.memtables().immutables().len() == 0
                &&& flushed.logs@.len() == waiting.len()
                &&& forall|i: int|
                    0 <= i < flushed.logs@.len() ==> #[trigger] flushed.logs@[i] == waiting[i].id()
                &&& match flushed.table {
                    Some(table) => {
                        &&& entries.len() > 0
                        &&& table.entries() == entries
                        &&& table.sound()
                        &&& table.id() == had.next_id()
                        &&& has.levels() == had.levels().update(0, had.levels()[0].push(table))
                    },
                    None => entries.len() == 0 && after.lvctl() == before.lvctl(),
                }
            },
            Err(_) => waiting.len() > 0 && entries.len() > 0 && after.memtables()
                == before.memtables() && has.levels() == had.levels(),
        }
        &&& waiting.len() > 0 ==> match flush_error(before.options(), had.next_id(), entries) {
            Some(e) => r matches Err(x) && x == e,
            None => r is Ok,
        }
    }

    /// Makes one table of level 0 of all memtables that wait to be flushed,
    /// and drops them.
    ///
    /// The entries of the memtables are merged, the newer memtables before
    /// the older ones where their keys are equal, so that the table holds
    /// for each key what the newest of the memtables has for it. Nothing
    /// happens where no memtable waits; memtables without entries are
    /// dropped without a table. After an error the memtables wait on.
    pub fn flush_immutables(&mut self) -> (r: Result<Option<Flushed>, LsmError>)
        requires
            old(self).wf(),
        ensures
            final(self).wf(),
            Self::flushed(*old(self), *final(self), r),
            final(self).options() == old(self).options(),
            final(self).memtables().active() == old(self).memtables().active(),
            old(self).lvctl().inner().all_sound() ==> final(self).lvctl().inner().all_sound(),
            forall|key: Seq<u8>| #[trigger] final(self).lookup(key) == old(self).lookup(key),
            match r {
                Ok(None) => final(self).memtables() == old(self).memtables() && final(self).lvctl()
                    == old(self).lvctl() && old(self).memtables().immutables().len() == 0,
                Ok(Some(flushed)) => {
                    &&& final(self).memtables().immutables().len() == 0
                    &&& flushed.logs@.len() == old(self).memtables().immutables().len()
                    &&& forall|i: int|
                        0 <= i < flushed.logs@.len() ==> #[trigger] flushed.logs@[i]
                            == old(self).memtables().immutables()[i].id()
                    &&& match flushed.table {
                        Some(table) => {
                            &&& table.sound()
                            &&& final(self).lvctl().inner().levels()
                                == old(self).lvctl().inner().levels().update(
                                0,
                                old(self).lvctl().inner().levels()[0].push(table),
                            )
                            &&& crate::key::entries_sorted(table.entries())
                        },
                        None => final(self).lvctl() == old(self).lvctl(),
                    }
                },
                Err(_) => final(self).memtables() == old(self).memtables()
                    && final(self).lvctl().inner().levels() == old(self).lvctl().inner().levels(),
            },
    {
        let n = self.memtables.imm_len();
        if n == 0 {
            return Ok(None);
        }
        let mut iters: Vec<Box<MemTableIterator>> = Vec::with_capacity(n);
        let mut j: usize = 0;
        while j < n
            invariant
                j <= n == self.memtables().immutables().len(),
                *self == *old(self),
                self.wf(),
                iters@.len() == j,
                forall|k: int|
                    0 <= k < j ==> (#[trigger] iters@[k]).wf() && iters@[k].reliable()
                        && crate::key::entries_sorted(iters@[k].remaining())
                        && crate::mem_table::is_listing(
                        self.memtables().immutables()[n - 1 - k].entries(),
                        Bound::Unbounded,
                        Bound::Unbounded,
                        iters@[k].remaining(),
                    ),
            decreases n - j,
        {
            let table = self.memtables.immutable(n - 1 - j);
            let iter = table.scan(Bound::Unbounded, Bound::Unbounded);
            iters.push(Box::new(iter));
            j += 1;
        }
        let ghost sources = MergeIterator::<MemTableIterator>::remaining_of(iters@);
        let mut merge = MergeIterator::create(iters);
        let ghost m = merge.remaining();
        proof {
            assert(crate::iterators::merge_iterator::sources_sorted(sources)) by {
                assert forall|k: int| 0 <= k < sources.len() implies crate::key::entries_sorted(
                    #[trigger] sources[k],
                ) by {
                    assert(crate::key::entries_sorted(iters@[k].remaining()));
                }
            }
            crate::iterators::merge_iterator::lemma_merged_sorted(sources);
            assert forall|k: int| 0 <= k < sources.len() implies crate::mem_table::is_listing(
                self.memtables().immutables()[n - 1 - k].entries(),
                Bound::Unbounded,
                Bound::Unbounded,
                #[trigger] sources[k],
            ) by {
                assert(iters@[k].wf());
            }
            let waiting = self.memtables().immutables();
            let listings = Seq::new(
                waiting.len(),
                |j: int| crate::mem_table::listing_of(waiting[waiting.len() - 1 - j].entries()),
            );
            assert forall|k: int| 0 <= k < sources.len() implies sources[k] == listings[k] by {
                crate::mem_table::lemma_listing_unique(
                    waiting[n - 1 - k].entries(),
                    Bound::Unbounded,
                    Bound::Unbounded,
                    sources[k],
                    listings[k],
                );
            }
            assert(sources =~= listings);
        }
        let ghost laid = crate::table::builder::entries_laid(
            crate::table::builder::no_layout(),
            self.options(),
            m,
            0,
        );
        let mut builder = SsTableBuilder::new(self.opts.duplicate());
        let ghost pos: int = 0;
        while merge.is_valid()
            invariant
                *self == *old(self),
                self.wf(),
                merge.wf(),
                merge.reliable(),
                builder.wf(),
                0 <= pos <= m.len(),
                merge.remaining() == m.skip(pos),
                builder.entries() == m.take(pos),
                n > 0,
                n == old(self).memtables().immutables().len(),
                m == crate::mem_table::waiting_entries(old(self).memtables().immutables()),
                builder.options() == self.options(),
                laid == crate::table::builder::entries_laid(
                    crate::table::builder::no_layout(),
                    self.options(),
                    m,
                    0,
                ),
                laid == crate::table::builder::entries_laid(
                    builder.layout(),
                    self.options(),
                    m,
                    pos,
                ),
            decreases m.len() - pos,
        {
            let k = merge.key();
            let v = merge.value();
            proof {
                assert(m.skip(pos)[0] == m[pos]);
            }
            if k.len() == 0 || k.len() > 0xFFFF || v.len() > 0xFFFF {
                return Err(LsmError::Overflow);
            }
            match builder.add(k, v) {
                Ok(()) => {},
                Err(e) => { return Err(e); },
            }
            match merge.next() {
                Ok(()) => {},
                Err(e) => { return Err(e); },
            }
            proof {
                assert(m.skip(pos)[0] == m[pos]);
                assert(m.take(pos).push(m[pos]) =~= m.take(pos + 1));
                assert(m.skip(pos).skip(1) =~= m.skip(pos + 1));
                pos = pos + 1;
            }
        }
        assert(m.take(pos) =~= m);
        let table = if pos_is_zero(&builder) {
            None
        } else {
            let pushed = self.lvctl.l0_push_sstable(builder);
            assert(self.memtables == old(self).memtables);
            assert(self.opts == old(self).opts);
            match pushed {
                Ok(table) => {
                    proof {
                        lemma_pushed_sound(
                            old(self).lvctl().inner().levels(),
                            self.lvctl().inner().levels(),
                            table,
                        );
                    }
                    Some(table)
                },
                Err(e) => { return Err(e); },
            }
        };
        let ghost middle = self.lvctl;
        let logs = self.memtables.drop_oldest(n);
        assert(self.lvctl == middle);
        assert(self.opts == old(self).opts);
        assert(self.memtables().immutables().len() == 0);
        proof {
            assert(self.memtables().all() =~= seq![old(self).memtables().active()]);
            assert forall|key: Seq<u8>| #[trigger] self.lookup(key) == old(self).lookup(key) by {
                lemma_flushed_lookup(
                    old(self).memtables().immutables(),
                    old(self).memtables().active(),
                    sources,
                    old(self).lvctl().inner().levels(),
                    self.lvctl().inner().levels(),
                    table,
                    key,
                );
            }
        }
        Ok(Some(Flushed { table, logs }))
    }

    /// Flushes everything: a new memtable takes the writes, and all others
    /// go into one table of level 0.
    pub fn sync(&mut self) -> (r: Result<Option<Flushed>, LsmError>)
        requires
            old(self).wf(),
        ensures
            final(self).wf(),
            final(self).options() == old(self).options(),
            forall|key: Seq<u8>| #[trigger] final(self).lookup(key) == old(self).lookup(key),
            old(self).lvctl().inner().all_sound() ==> final(self).lvctl().inner().all_sound(),
            r matches Ok(Some(flushed)) ==> final(self).memtables().immutables().len() == 0
                && final(self).memtables().active().entries() == crate::mem_table::no_entries(),
            Self::synced(*old(self), *final(self), r),
    {
        let rotated = self.memtables.use_new_table();
        assert(self.lvctl == old(self).lvctl);
        assert(self.opts == old(self).opts);
        match rotated {
            Ok(()) => {},
            Err(e) => {
                assert(self.memtables == old(self).memtables);
                return Err(e);
            },
        }
        let ghost middle = *self;
        assert(Self::rotated(*old(self), middle));
        self.flush_immutables()
    }

    /// What a flush of everything has done: nothing where the numbers of
    /// the memtables are exhausted, which fails with `Overflow`; else a
    /// new memtable has taken the writes, see `rotated`, and the
    /// memtables that then waited were flushed, see `flushed`.
    pub open spec fn synced(before: Self, after: Self, r: Result<Option<Flushed>, LsmError>) -> bool {
        if before.memtables().next_id() == usize::MAX {
            r == Err::<Option<Flushed>, LsmError>(LsmError::Overflow) && after == before
        } else {
            exists|middle: Self| #[trigger]
                Self::rotated(before, middle) && Self::flushed(middle, after, r)
        }
    }

    /// One round of the write worker: takes requests from the front of the
    /// queue until they have more entries than the worker waits for, or the
    /// queue is empty, writes all their entries as one batch, and gives the
    /// outcome together with the senders of the requests that want an
    /// answer.
    pub fn start_write<S>(&mut self, queue: &mut VecDeque<Request<S>>) -> (r: (
        Vec<S>,
        Result<(), LsmError>,
    ))
        requires
            old(self).wf(),
        ensures
            final(self).wf(),
            crate::mem_table::error_of(r.1) == crate::mem_table::write_error(
                entries_of(old(queue)@, taken(old(queue)@, old(self).options().wait_entry_num, 0, 0)),
                true,
                old(self).memtables().active().wal().sequence(),
            ),
            final(self).lvctl() == old(self).lvctl(),
            final(self).options() == old(self).options(),
            r.1 is Err ==> *final(self) == *old(self),
            r.1 is Ok ==> Self::written(
                *old(self),
                *final(self),
                MemTable::batch_onto(
                    entries_of(
                        old(queue)@,
                        taken(old(queue)@, old(self).options().wait_entry_num, 0, 0),
                    ),
                    0,
                    old(self).memtables().active().entries(),
                    (old(self).memtables().active().wal().sequence() + 1) as u64,
                ),
                crate::wal::wal_records(
                    entries_of(
                        old(queue)@,
                        taken(old(queue)@, old(self).options().wait_entry_num, 0, 0),
                    ),
                ),
            ),
            final(queue)@ == old(queue)@.skip(
                taken(old(queue)@, old(self).options().wait_entry_num, 0, 0),
            ),
            r.0@ == senders_of(
                old(queue)@,
                taken(old(queue)@, old(self).options().wait_entry_num, 0, 0),
            ),
            forall|key: Seq<u8>| #[trigger]
                final(self).lookup(key) == match crate::mem_table::batch_first(
                    entries_of(
                        old(queue)@,
                        taken(old(queue)@, old(self).options().wait_entry_num, 0, 0),
                    ),
                    key,
                    0,
                ) {
                    Some(value) => if r.1 is Ok {
                        shown(Some(value))
                    } else {
                        old(self).lookup(key)
                    },
                    None => old(self).lookup(key),
                },
    {
        let ghost asked = queue@;
        let ghost limit = self.opts.wait_entry_num;
        let mut buf: Vec<(Vec<u8>, Vec<u8>)> = Vec::new();
        let mut senders: Vec<S> = Vec::new();
        let ghost n: int = 0;
        let mut full = false;
        while !full && queue.len() > 0
            invariant
                *self == *old(self),
                self.wf(),
                limit == self.opts.wait_entry_num,
                asked == old(queue)@,
                0 <= n <= asked.len(),
                queue@ == asked.skip(n),
                senders@ == senders_of(asked, n),
                crate::wal::Wal::entries_view(buf@) == entries_of(asked, n),
                taken(asked, limit, 0, 0) == if full {
                    n
                } else {
                    taken(asked, limit, n, buf@.len() as int)
                },
            decreases asked.len() - n + if full { 0int } else { 1int },
        {
            let request = match queue.pop_front() {
                Some(request) => request,
                None => { return (senders, Ok(())); },
            };
            assert(request == asked[n]);
            let mut entries = request.entries;
            let ghost before = buf@;
            let ghost added = entries@;
            buf.append(&mut entries);
            assert(crate::wal::Wal::entries_view(buf@) =~= crate::wal::Wal::entries_view(before)
                + crate::wal::Wal::entries_view(added));
            match request.sender {
                Some(sender) => {
                    senders.push(sender);
                },
                None => {},
            }
            proof {
                assert(asked.skip(n).subrange(1, asked.skip(n).len() as int) =~= asked.skip(n + 1));
                n = n + 1;
            }
            if buf.len() > self.opts.wait_entry_num {
                full = true;
            }
        }
        proof {
            if !full {
                assert(n == asked.len());
            }
        }
        let put = self.memtables.put_entries(buf.as_slice());
        assert(self.lvctl == old(self).lvctl);
        assert(self.opts == old(self).opts);
        (senders, put)
    }

    /// An iterator over the keys between two bounds with the values that
    /// readers are shown for them, in the order of the keys.
    ///
    /// The memtables, the newest first, are merged with the tables that
    /// have keys between the bounds, those of level 0 the newest first and
    /// then those of the deeper levels; a key that stands in several of
    /// them comes with what the first of them has for it, and not at all
    /// where that is the empty value.
    #[verifier::spinoff_prover]
    #[verifier::rlimit(60)]
    pub fn scan(&self, lower: Bound<&[u8]>, upper: Bound<&[u8]>) -> (r: Result<
        FusedIterator<LsmIterator>,
        LsmError,
    >)
        requires
            self.wf(),
        ensures
            r matches Ok(iter) ==> iter.wf() && (self.lvctl().inner().all_sound()
                ==> iter.reliable() && exists|mems: Seq<Seq<(Seq<u8>, Seq<u8>)>>|
                #![trigger self.scanned(mems, lower, upper)]
                self.listed(mems, lower, upper) && iter.remaining() == self.scanned(
                    mems,
                    lower,
                    upper,
                )),
            self.lvctl().inner().all_sound() ==> r is Ok,
    {
        let ghost lo = crate::mem_table::bound_view(lower);
        let ghost hi = crate::mem_table::bound_view(upper);
        let view = self.memtables.view();
        let ghost all = self.memtables().all();
        let n = view.len();
        let mut mem_iters: Vec<Box<MemTableIterator>> = Vec::with_capacity(n);
        let mut j: usize = 0;
        while j < n
            invariant
                j <= n == view@.len(),
                n == all.len(),
                lo == crate::mem_table::bound_view(lower),
                hi == crate::mem_table::bound_view(upper),
                forall|k: int| 0 <= k < view@.len() ==> *(#[trigger] view@[k]) == all[k],
                mem_iters@.len() == j,
                forall|k: int|
                    0 <= k < j ==> (#[trigger] mem_iters@[k]).wf() && mem_iters@[k].reliable()
                        && crate::mem_table::is_listing(
                        all[n - 1 - k].entries(),
                        lo,
                        hi,
                        mem_iters@[k].remaining(),
                    ),
            decreases n - j,
        {
            assert(*view@[n - 1 - j] == all[n - 1 - j]);
            let iter = view[n - 1 - j].scan(lower, upper);
            mem_iters.push(Box::new(iter));
            j += 1;
        }
        let ghost mems = MergeIterator::<MemTableIterator>::remaining_of(mem_iters@);
        let mem_iter = MergeIterator::create(mem_iters);

        let ssts = self.lvctl.level_tables_sorted(lower, upper);
        let ghost sound = self.lvctl().inner().all_sound();
        proof {
            lemma_spanned_tables(
                self.lvctl().inner().levels(),
                lo,
                hi,
                self.lvctl().inner().levels().len() as int,
            );
        }
        let mut sst_iters: Vec<Box<SsTableIterator>> = Vec::with_capacity(ssts.len());
        let mut j: usize = 0;
        while j < ssts.len()
            invariant
                j <= ssts@.len(),
                self.wf(),
                lo == crate::mem_table::bound_view(lower),
                sound == self.lvctl().inner().all_sound(),
                forall|k: int| 0 <= k < ssts@.len() ==> (#[trigger] ssts@[k]).wf(),
                sound ==> forall|k: int| 0 <= k < ssts@.len() ==> (#[trigger] ssts@[k]).sound(),
                sst_iters@.len() == j,
                forall|k: int| 0 <= k < j ==> (#[trigger] sst_iters@[k]).wf(),
                sound ==> forall|k: int|
                    0 <= k < j ==> (#[trigger] sst_iters@[k]).reliable()
                        && sst_iters@[k].remaining() == from_bound(ssts@[k].entries(), lo),
            decreases ssts@.len() - j,
        {
            let table = &ssts[j];
            assert(table.wf());
            proof {
                if sound {
                    assert(ssts@[j as int].sound());
                }
            }
            let iter = match lower {
                Bound::Included(key) => {
                    let iter = match SsTableIterator::create_and_seek_to_key(
                        crate::foreign::share(table),
                        key,
                    ) {
                        Ok(iter) => iter,
                        Err(e) => { return Err(e); },
                    };
                    proof {
                        if sound {
                            crate::key::lemma_seeked_from_key(
                                table.entries(),
                                key@,
                                iter.remaining(),
                            );
                        }
                    }
                    iter
                },
                Bound::Unbounded => {
                    match SsTableIterator::create_and_seek_to_first(crate::foreign::share(table)) {
                        Ok(iter) => iter,
                        Err(e) => { return Err(e); },
                    }
                },
                Bound::Excluded(key) => {
                    let mut iter = match SsTableIterator::create_and_seek_to_key(
                        crate::foreign::share(table),
                        key,
                    ) {
                        Ok(iter) => iter,
                        Err(e) => { return Err(e); },
                    };
                    proof {
                        if sound {
                            crate::key::lemma_seeked_from_key(
                                table.entries(),
                                key@,
                                iter.remaining(),
                            );
                        }
                    }
                    if iter.is_valid() && crate::key::key_equal(iter.key(), key) {
                        match iter.next() {
                            Ok(()) => {},
                            Err(e) => { return Err(e); },
                        }
                    }
                    iter
                },
            };
            sst_iters.push(Box::new(iter));
            j += 1;
        }
        let ghost tables = MergeIterator::<SsTableIterator>::remaining_of(sst_iters@);
        let sst_iter = MergeIterator::create(sst_iters);
        let iter = match TwoMergeIterator::create(mem_iter, sst_iter) {
            Ok(iter) => iter,
            Err(e) => { return Err(e); },
        };
        let end = match upper {
            Bound::Included(key) => Bound::Included(vstd::slice::slice_to_vec(key)),
            Bound::Unbounded => Bound::Unbounded,
            Bound::Excluded(key) => Bound::Excluded(vstd::slice::slice_to_vec(key)),
        };
        let scan = match LsmIterator::new(iter, end) {
            Ok(scan) => scan,
            Err(e) => { return Err(e); },
        };
        let fused = FusedIterator::new(scan);
        proof {
            if sound {
                assert(tables =~= self.table_sources(lower, upper));
                assert(self.listed(mems, lower, upper));
                assert(fused.remaining() == self.scanned(mems, lower, upper));
            }
        }
        Ok(fused)
    }

    /// What the tables that a scan reads have from the lower bound on.
    pub open spec fn table_sources(&self, lower: Bound<&[u8]>, upper: Bound<&[u8]>) -> Seq<
        Seq<(Seq<u8>, Seq<u8>)>,
    > {
        let tables = crate::level::spanned_levels(
            self.lvctl().inner().levels(),
            crate::mem_table::bound_view(lower),
            crate::mem_table::bound_view(upper),
            self.lvctl().inner().levels().len() as int,
        );
        Seq::new(
            tables.len(),
            |k: int| from_bound(tables[k].entries(), crate::mem_table::bound_view(lower)),
        )
    }

    /// `mems` is what the memtables have between the bounds, the newest
    /// memtable first.
    pub open spec fn listed(
        &self,
        mems: Seq<Seq<(Seq<u8>, Seq<u8>)>>,
        lower: Bound<&[u8]>,
        upper: Bound<&[u8]>,
    ) -> bool {
        let all = self.memtables().all();
        &&& mems.len() == all.len()
        &&& forall|k: int|
            0 <= k < mems.len() ==> crate::mem_table::is_listing(
                all[all.len() - 1 - k].entries(),
                crate::mem_table::bound_view(lower),
                crate::mem_table::bound_view(upper),
                #[trigger] mems[k],
            )
    }

    /// What a scan between the bounds gives, where the memtables have
    /// `mems` between the bounds.
    pub open spec fn scanned(
        &self,
        mems: Seq<Seq<(Seq<u8>, Seq<u8>)>>,
        lower: Bound<&[u8]>,
        upper: Bound<&[u8]>,
    ) -> Seq<(Seq<u8>, Seq<u8>)> {
        crate::lsm_iterator::visible(
            crate::iterators::two_merge_iterator::two_merged(
                crate::iterators::merge_iterator::merged(mems),
                crate::iterators::merge_iterator::merged(self.table_sources(lower, upper)),
            ),
            crate::mem_table::bound_view(upper),
        )
    }

    /// Writes an entry to the memtable that takes the writes, and lets a
    /// new memtable take the writes where that one has outgrown its size.
    fn do_put(&mut self, key: &[u8], value: &[u8]) -> (r: Result<(), LsmError>)
        requires
            old(self).wf(),
            0 < key@.len(),
        ensures
            final(self).wf(),
            final(self).lvctl() == old(self).lvctl(),
            final(self).options() == old(self).options(),
            forall|other: Seq<u8>|
                other != key@ ==> #[trigger] final(self).memtables().value_of(other)
                    == old(self).memtables().value_of(other),
            match r {
                Ok(()) => final(self).memtables().value_of(key@) == Some(value@),
                Err(e) => e == LsmError::Overflow,
            },
            key@.len() > 0xFFFF || value@.len() > 0xFFFF ==> r is Err,
            key@.len() <= 0xFFFF && value@.len() <= 0xFFFF
                && old(self).memtables().active().wal().sequence() < u64::MAX
                && old(self).memtables().next_id() < usize::MAX ==> r is Ok,
            crate::mem_table::error_of(r) == old(self).put_error(seq![(key@, value@)]),
            r is Err ==> *final(self) == *old(self),
            r is Ok ==> Self::write_done(
                *old(self),
                *final(self),
                old(self).with_write(key@, value@),
                crate::block::encoded_entry(key@, value@),
            ),
    {
        if self.memtables.exhausted() {
            return Err(LsmError::Overflow);
        }
        let ghost before = self.memtables().all();
        let put = self.memtables.put(key, value);
        assert(self.lvctl == old(self).lvctl);
        assert(self.opts == old(self).opts);
        match put {
            Ok(()) => {},
            Err(e) => {
                proof {
                    let after = self.memtables().all();
                    assert(after[after.len() - 1] == self.memtables().active());
                    assert(before[before.len() - 1] == old(self).memtables().active());
                    assert forall|other: Seq<u8>| #[trigger]
                        self.memtables().value_of(other) == old(self).memtables().value_of(
                            other,
                        ) by {
                        assert forall|i: int| 0 <= i < before.len() - 1 implies (
                        #[trigger] before[i]) == after[i] by {
                            assert(before[i] == old(self).memtables().immutables()[i]);
                            assert(after[i] == self.memtables().immutables()[i]);
                        }
                        lemma_mem_value_same(before, after, other, before.len() as int);
                    }
                }
                return Err(e);
            },
        }
        proof {
            let after = self.memtables().all();
            assert(after[after.len() - 1] == self.memtables().active());
            assert(before[before.len() - 1] == old(self).memtables().active());
            assert(self.memtables().value_of(key@) == Some(value@));
            assert forall|other: Seq<u8>| other != key@ implies #[trigger] self.memtables().value_of(
                other,
            ) == old(self).memtables().value_of(other) by {
                assert forall|i: int| 0 <= i < before.len() - 1 implies (
                #[trigger] before[i]) == after[i] by {
                    assert(before[i] == old(self).memtables().immutables()[i]);
                    assert(after[i] == self.memtables().immutables()[i]);
                }
                lemma_mem_value_same(before, after, other, before.len() as int - 1);
            }
        }
        let size = self.memtables.active_size();
        let ghost written = self.memtables;
        let ghost middle = *self;
        assert(Self::written(
            *old(self),
            middle,
            old(self).with_write(key@, value@),
            crate::block::encoded_entry(key@, value@),
        ));
        let r = self.may_use_new_table(size);
        proof {
            assert forall|other: Seq<u8>| #[trigger]
                self.memtables().value_of(other) == written.value_of(other) by {}
            assert(middle.overfull() == middle.outgrown(size));
        }
        r
    }

    /// Whether a new memtable is to take the writes: the size `size` that
    /// was seen of the one that takes them, and the size that it has now,
    /// are above the size of a memtable.
    pub open spec fn outgrown(&self, size: usize) -> bool {
        size > self.options().memtable_size && self.memtables().active().spec_size()
            > self.options().memtable_size
    }

    /// Lets a new memtable take the writes where the size `size` of the one
    /// that takes them is above the size of a memtable; the one that took
    /// them becomes the newest of those that wait to be flushed. Fails
    /// with `Overflow` where the numbers of the memtables are exhausted;
    /// then nothing has changed.
    fn may_use_new_table(&mut self, size: usize) -> (r: Result<(), LsmError>)
        requires
            old(self).wf(),
        ensures
            final(self).wf(),
            final(self).lvctl() == old(self).lvctl(),
            final(self).options() == old(self).options(),
            forall|key: Seq<u8>| #[trigger]
                final(self).memtables().value_of(key) == old(self).memtables().value_of(key),
            r matches Err(e) ==> e == LsmError::Overflow
                && final(self).memtables() == old(self).memtables(),
            old(self).memtables().next_id() < usize::MAX ==> r is Ok,
            !old(self).outgrown(size) ==> r is Ok && final(self).memtables() == old(self).memtables(),
            old(self).outgrown(size) ==> (r is Ok <==> old(self).memtables().next_id() < usize::MAX),
            !old(self).outgrown(size) ==> *final(self) == *old(self),
            old(self).outgrown(size) && r is Ok ==> Self::rotated(*old(self), *final(self)),
            old(self).outgrown(size) && r is Ok ==> {
                let had = old(self).memtables();
                let has = final(self).memtables();
                &&& has.immutables().len() == had.immutables().len() + 1
                &&& forall|i: int|
                    0 <= i < had.immutables().len() ==> #[trigger] has.immutables()[i]
                        == had.immutables()[i]
                &&& has.immutables().last().entries() == had.active().entries()
                &&& has.immutables().last().id() == had.active().id()
                &&& has.active().entries() == crate::mem_table::no_entries()
                &&& has.active().id() == had.next_id()
                &&& has.next_id() == had.next_id() + 1
            },
    {
        if size <= self.opts.memtable_size {
            return Ok(());
        }
        if self.memtables.active_size() > self.opts.memtable_size {
            let ghost before = self.memtables().all();
            let rotated = self.memtables.use_new_table();
            assert(self.lvctl == old(self).lvctl);
            assert(self.opts == old(self).opts);
            match rotated {
                Ok(()) => {},
                Err(e) => { return Err(e); },
            }
            proof {
                let after = self.memtables().all();
                assert(after.len() == before.len() + 1);
                assert(after[after.len() - 1] == self.memtables().active());
                assert(before[before.len() - 1] == old(self).memtables().active());
                assert(after[before.len() - 1] == self.memtables().immutables().last());
                assert forall|key: Seq<u8>| #[trigger]
                    self.memtables().value_of(key) == old(self).memtables().value_of(key) by {
                    assert forall|i: int| 0 <= i < before.len() - 1 implies (
                    #[trigger] before[i]) == after[i] by {
                        assert(before[i] == old(self).memtables().immutables()[i]);
                        assert(after[i] == self.memtables().immutables()[i]);
                    }
                    lemma_mem_value_same(before, after, key, before.len() as int);
                }
            }
        }
        Ok(())
    }
}

/// What entries have from a lower bound on: the entries from the key of
/// the bound on, without the entry of that very key where the bound does
/// not take it in.
pub open spec fn from_bound(e: Seq<(Seq<u8>, Seq<u8>)>, lower: Bound<Seq<u8>>) -> Seq<
    (Seq<u8>, Seq<u8>),
> {
    match lower {
        Bound::Included(key) => crate::key::from_key(e, key),
        Bound::Excluded(key) => {
            let rest = crate::key::from_key(e, key);
            if rest.len() > 0 && rest[0].0 == key {
                rest.skip(1)
            } else {
                rest
            }
        },
        Bound::Unbounded => e,
    }
}

/// The tables that a scan reads are tables of the levels.
pub proof fn lemma_spanned_tables(
    levels: Seq<Seq<Arc<SsTable>>>,
    lower: Bound<Seq<u8>>,
    upper: Bound<Seq<u8>>,
    upto: int,
)
    requires
        0 <= upto <= levels.len(),
    ensures
        forall|k: int|
            0 <= k < crate::level::spanned_levels(levels, lower, upper, upto).len() ==> exists|
                l: int,
                i: int,
            |
                0 <= l < upto && 0 <= i < levels[l].len() && (#[trigger] levels[l][i])
                    == #[trigger] crate::level::spanned_levels(levels, lower, upper, upto)[k],
    decreases upto,
{
    if upto > 0 {
        lemma_spanned_tables(levels, lower, upper, upto - 1);
        let before = crate::level::spanned_levels(levels, lower, upper, upto - 1);
        let read = if upto == 1 {
            crate::level::newest_first(levels[0])
        } else {
            levels[upto - 1]
        };
        let part = crate::level::spanned(read, lower, upper, read.len() as int);
        lemma_spanned(read, lower, upper, read.len() as int);
        let now = crate::level::spanned_levels(levels, lower, upper, upto);
        assert forall|k: int| 0 <= k < now.len() implies exists|l: int, i: int|
            0 <= l < upto && 0 <= i < levels[l].len() && (#[trigger] levels[l][i])
                == #[trigger] now[k] by {
            if k < before.len() {
                assert(now[k] == before[k]);
                let (l, i) = choose|l: int, i: int|
                    0 <= l < upto - 1 && 0 <= i < levels[l].len() && (#[trigger] levels[l][i])
                        == before[k];
                assert(levels[l][i] == now[k]);
            } else {
                let x = part[k - before.len()];
                assert(now[k] == x);
                assert(read.contains(x));
                let j = choose|j: int| 0 <= j < read.len() && read[j] == x;
                if upto == 1 {
                    assert(levels[0][levels[0].len() - 1 - j] == x);
                } else {
                    assert(levels[upto - 1][j] == x);
                }
            }
        }
    }
}

/// The tables between bounds are among the tables.
pub proof fn lemma_spanned(
    tables: Seq<Arc<SsTable>>,
    lower: Bound<Seq<u8>>,
    upper: Bound<Seq<u8>>,
    upto: int,
)
    requires
        0 <= upto <= tables.len(),
    ensures
        forall|k: int|
            0 <= k < crate::level::spanned(tables, lower, upper, upto).len() ==> tables.contains(
                #[trigger] crate::level::spanned(tables, lower, upper, upto)[k],
            ),
    decreases upto,
{
    if upto > 0 {
        lemma_spanned(tables, lower, upper, upto - 1);
        let before = crate::level::spanned(tables, lower, upper, upto - 1);
        let now = crate::level::spanned(tables, lower, upper, upto);
        assert forall|k: int| 0 <= k < now.len() implies tables.contains(#[trigger] now[k]) by {
            if k < before.len() {
                assert(now[k] == before[k]);
            } else {
                assert(tables[upto - 1] == now[k]);
            }
        }
    }
}

/// The first fault of a batch of entries: `EmptyKey` where an entry has no
/// key, and else `Overflow` where a part of an entry does not fit its
/// field.
fn first_fault(entries: &[(Vec<u8>, Vec<u8>)]) -> (fault: Option<LsmError>)
    ensures
        fault == if !crate::mem_table::keyed(crate::wal::Wal::entries_view(entries@)) {
            Some(LsmError::EmptyKey)
        } else if !crate::wal::storable(crate::wal::Wal::entries_view(entries@)) {
            Some(LsmError::Overflow)
        } else {
            None::<LsmError>
        },
{
    let ghost batch = crate::wal::Wal::entries_view(entries@);
    let mut i: usize = 0;
    while i < entries.len()
        invariant
            i <= entries@.len(),
            batch == crate::wal::Wal::entries_view(entries@),
            forall|j: int| 0 <= j < i ==> (#[trigger] batch[j]).0.len() > 0,
        decreases entries@.len() - i,
    {
        if entries[i].0.len() == 0 {
            assert(batch[i as int].0.len() == 0);
            return Some(LsmError::EmptyKey);
        }
        assert(batch[i as int].0 == entries@[i as int].0@);
        i += 1;
    }
    let mut i: usize = 0;
    while i < entries.len()
        invariant
            i <= entries@.len(),
            batch == crate::wal::Wal::entries_view(entries@),
            crate::mem_table::keyed(batch),
            forall|j: int|
                0 <= j < i ==> (#[trigger] batch[j]).0.len() <= 0xFFFF && batch[j].1.len()
                    <= 0xFFFF,
        decreases entries@.len() - i,
    {
        if entries[i].0.len() > 0xFFFF || entries[i].1.len() > 0xFFFF {
            assert(batch[i as int] == (entries@[i as int].0@, entries@[i as int].1@));
            return Some(LsmError::Overflow);
        }
        assert(batch[i as int] == (entries@[i as int].0@, entries@[i as int].1@));
        i += 1;
    }
    None
}

/// Why a flush of the entries fails, if it does: as the first entry fails
/// to be laid out that does, see `entries_laid`; else, where there are
/// entries, with `Overflow` where the ids of the tables are exhausted, and
/// as the table is not built, see `build_error`.
pub open spec fn flush_error(
    opts: LsmOptions,
    next_id: u64,
    entries: Seq<(Seq<u8>, Seq<u8>)>,
) -> Option<LsmError> {
    match crate::table::builder::entries_laid(crate::table::builder::no_layout(), opts, entries, 0) {
        Err(e) => Some(e),
        Ok(l) => if entries.len() == 0 {
            None
        } else if next_id == u64::MAX {
            Some(LsmError::Overflow)
        } else {
            crate::table::builder::build_error(l, opts)
        },
    }
}

/// Whether the builder has taken no entry.
fn pos_is_zero(builder: &SsTableBuilder) -> (empty: bool)
    requires
        builder.wf(),
    ensures
        empty == (builder.entries().len() == 0),
{
    builder.is_empty()
}

/// The number of requests that a round of the write worker takes from the
/// queue: those from number `from` on are taken one by one, each adding
/// its entries to the `have` entries taken so far, until there are more
/// than `limit` or the queue ends.
pub open spec fn taken<S>(queue: Seq<Request<S>>, limit: usize, from: int, have: int) -> int
    decreases queue.len() - from,
{
    if from < 0 || from >= queue.len() {
        from
    } else if have + queue[from].entries@.len() > limit {
        from + 1
    } else {
        taken(queue, limit, from + 1, have + queue[from].entries@.len())
    }
}

/// The entries of the first `upto` requests, one request after the other.
pub open spec fn entries_of<S>(queue: Seq<Request<S>>, upto: int) -> Seq<(Seq<u8>, Seq<u8>)>
    decreases upto,
{
    if upto <= 0 {
        Seq::empty()
    } else {
        entries_of(queue, upto - 1) + crate::wal::Wal::entries_view(queue[upto - 1].entries@)
    }
}

/// The senders of the first `upto` requests, without the requests that
/// want no answer.
pub open spec fn senders_of<S>(queue: Seq<Request<S>>, upto: int) -> Seq<S>
    decreases upto,
{
    if upto <= 0 {
        Seq::empty()
    } else {
        match queue[upto - 1].sender {
            Some(sender) => senders_of(queue, upto - 1).push(sender),
            None => senders_of(queue, upto - 1),
        }
    }
}

/// What a reader is shown stays as it was where the memtables that wait
/// are replaced by one table of level 0 that holds what their merge gives,
/// the newest memtable first.
pub proof fn lemma_flushed_lookup(
    waiting: Seq<MemTable>,
    active: MemTable,
    sources: Seq<Seq<(Seq<u8>, Seq<u8>)>>,
    before: Seq<Seq<Arc<SsTable>>>,
    after: Seq<Seq<Arc<SsTable>>>,
    table: Option<Arc<SsTable>>,
    key: Seq<u8>,
)
    requires
        sources.len() == waiting.len(),
        forall|j: int|
            0 <= j < sources.len() ==> crate::mem_table::is_listing(
                waiting[waiting.len() - 1 - j].entries(),
                Bound::Unbounded,
                Bound::Unbounded,
                #[trigger] sources[j],
            ),
        before.len() > 0,
        match table {
            Some(t) => t.entries() == merged(sources) && after == before.update(
                0,
                before[0].push(t),
            ),
            None => merged(sources).len() == 0 && after == before,
        },
    ensures
        seen(
            mem_value(waiting.push(active), key, waiting.len() as int + 1),
            shown(stored_value(before, key)),
        ) == seen(mem_value(seq![active], key, 1), shown(stored_value(after, key))),
{
    let n = waiting.len() as int;
    let all = waiting.push(active);
    assert(crate::iterators::merge_iterator::sources_sorted(sources));
    crate::iterators::merge_iterator::lemma_merged_value(sources, key);
    crate::mem_table::lemma_listings_value(waiting, sources, key, 0);
    crate::mem_table::lemma_mem_value_prefix(all, waiting, key, n);
    assert(all[n] == active);
    assert(mem_value(seq![active], key, 0) is None);
    assert(seq![active][0] == active);
    match table {
        Some(t) => {
            crate::level::lemma_pushed_value(before, after, t, key);
        },
        None => {
            assert(!crate::key::has_key(merged(sources), key));
        },
    }
}

/// Levels that were sound stay sound with a sound table more in level 0.
pub proof fn lemma_pushed_sound(
    before: Seq<Seq<Arc<SsTable>>>,
    after: Seq<Seq<Arc<SsTable>>>,
    table: Arc<SsTable>,
)
    requires
        before.len() > 0,
        after == before.update(0, before[0].push(table)),
    ensures
        table.sound() && (forall|l: int, i: int|
            0 <= l < before.len() && 0 <= i < before[l].len() ==> (#[trigger] before[l][i]).sound())
            ==> (forall|l: int, i: int|
            0 <= l < after.len() && 0 <= i < after[l].len() ==> (#[trigger] after[l][i]).sound()),
{
    if table.sound() && (forall|l: int, i: int|
        0 <= l < before.len() && 0 <= i < before[l].len() ==> (#[trigger] before[l][i]).sound()) {
        assert forall|l: int, i: int|
            0 <= l < after.len() && 0 <= i < after[l].len() implies (#[trigger] after[l][i]).sound() by {
            if l == 0 && i == before[0].len() {
            } else {
                assert(after[l][i] == before[l][i]);
            }
        }
    }
}

/// The value that the first memtables have for a key does not depend on
/// the memtables behind them, nor on the entries of other keys.
pub proof fn lemma_mem_value_same(a: Seq<MemTable>, b: Seq<MemTable>, key: Seq<u8>, upto: int)
    requires
        0 <= upto <= a.len(),
        upto <= b.len(),
        forall|i: int|
            0 <= i < upto ==> (#[trigger] a[i]).entries().contains_key(key) == b[i].entries().contains_key(
                key,
            ) && (a[i].entries().contains_key(key) ==> a[i].entries()[key].0 == b[i].entries()[key].0),
    ensures
        mem_value(a, key, upto) == mem_value(b, key, upto),
    decreases upto,
{
    if upto > 0 {
        assert(a[upto - 1].entries().contains_key(key) == b[upto - 1].entries().contains_key(key));
        lemma_mem_value_same(a, b, key, upto - 1);
    }
}

/// The storage interface of the engine.
pub struct LsmStorage {
    inner: LsmStorageInner,
}

impl LsmStorage {
    /// The state of the engine.
    pub closed spec fn inner(&self) -> LsmStorageInner {
        self.inner
    }

    /// What holds of the engine at all times.
    pub open spec fn wf(&self) -> bool {
        self.inner().wf()
    }

    /// Opens the engine of a database: `manifest` is the bytes of its
    /// MANIFEST, `files` the content of its table files with the ids in
    /// their names, and `logs` the bytes of its logs with the numbers in
    /// their names. See `LevelsControllerInner::new` and `MemTables::new`.
    pub fn open(
        opts: LsmOptions,
        manifest: &[u8],
        files: Vec<(u64, FileObject)>,
        logs: Vec<(usize, Vec<u8>)>,
    ) -> (r: Result<Self, LsmError>)
        ensures
            r matches Ok(storage) ==> LsmStorageInner::opened(
                storage.inner(),
                opts,
                manifest@,
                files@,
                logs@,
            ),
            r is Ok <==> crate::level::opens(opts, manifest@, files@) && (forall|k: int|
                0 <= k < logs@.len() ==> (#[trigger] logs@[k]).0 < usize::MAX - 1),
    {
        match LsmStorageInner::create(opts, manifest, files, logs) {
            Ok(inner) => Ok(Self { inner }),
            Err(e) => Err(e),
        }
    }

    /// The value that a reader is shown for the key; see
    /// `LsmStorageInner::get`.
    pub fn get(&self, key: &[u8]) -> (r: Result<Option<Vec<u8>>, LsmError>)
        requires
            self.wf(),
        ensures
            key@.len() == 0 ==> r == Err::<Option<Vec<u8>>, LsmError>(LsmError::EmptyKey),
            key@.len() > 0 && (self.inner().memtables().value_of(key@) is Some
                || self.inner().lvctl().inner().all_sound()) ==> r is Ok && view_of(r->Ok_0)
                == self.inner().lookup(key@),
    {
        self.inner.get(key)
    }

    /// Stores a value for a key; see `LsmStorageInner::put`.
    pub fn put(&mut self, key: &[u8], value: &[u8]) -> (r: Result<(), LsmError>)
        requires
            old(self).wf(),
        ensures
            final(self).wf(),
            key@.len() == 0 ==> r == Err::<(), LsmError>(LsmError::EmptyKey),
            key@.len() > 0 && value@.len() == 0 ==> r == Err::<(), LsmError>(LsmError::EmptyValue),
            0 < key@.len() <= 0xFFFF && 0 < value@.len() <= 0xFFFF
                && old(self).inner().memtables().active().wal().sequence() < u64::MAX
                && old(self).inner().memtables().next_id() < usize::MAX ==> r is Ok,
            key@.len() > 0 && value@.len() > 0 && (key@.len() > 0xFFFF || value@.len() > 0xFFFF)
                ==> r == Err::<(), LsmError>(LsmError::Overflow),
            r matches Err(e) ==> e == LsmError::EmptyKey || e == LsmError::EmptyValue || e
                == LsmError::Overflow,
            r is Ok ==> final(self).inner().lookup(key@) == Some(value@),
            forall|other: Seq<u8>|
                other != key@ || key@.len() == 0 || value@.len() == 0
                    ==> #[trigger] final(self).inner().lookup(other) == old(self).inner().lookup(
                    other,
                ),
            crate::mem_table::error_of(r) == if key@.len() == 0 {
                Some(LsmError::EmptyKey)
            } else if value@.len() == 0 {
                Some(LsmError::EmptyValue)
            } else {
                old(self).inner().put_error(seq![(key@, value@)])
            },
            r is Err ==> final(self).inner() == old(self).inner(),
            final(self).inner().lvctl() == old(self).inner().lvctl(),
            r is Ok ==> final(self).inner().memtables().value_of(key@) == Some(value@)
                && LsmStorageInner::write_done(
                old(self).inner(),
                final(self).inner(),
                old(self).inner().with_write(key@, value@),
                crate::block::encoded_entry(key@, value@),
            ),
    {
        self.inner.put(key, value)
    }

    /// Deletes a key; see `LsmStorageInner::delete`.
    pub fn delete(&mut self, key: &[u8]) -> (r: Result<(), LsmError>)
        requires
            old(self).wf(),
        ensures
            final(self).wf(),
            key@.len() == 0 ==> r == Err::<(), LsmError>(LsmError::EmptyKey),
            0 < key@.len() <= 0xFFFF && old(self).inner().memtables().active().wal().sequence()
                < u64::MAX && old(self).inner().memtables().next_id() < usize::MAX ==> r is Ok,
            key@.len() > 0xFFFF ==> r == Err::<(), LsmError>(LsmError::Overflow),
            r matches Err(e) ==> e == LsmError::EmptyKey || e == LsmError::Overflow,
            r is Ok ==> final(self).inner().lookup(key@) is None,
            forall|other: Seq<u8>|
                other != key@ || key@.len() == 0 ==> #[trigger] final(self).inner().lookup(other)
                    == old(self).inner().lookup(other),
            crate::mem_table::error_of(r) == if key@.len() == 0 {
                Some(LsmError::EmptyKey)
            } else {
                old(self).inner().put_error(seq![(key@, Seq::<u8>::empty())])
            },
            r is Err ==> final(self).inner() == old(self).inner(),
            final(self).inner().lvctl() == old(self).inner().lvctl(),
            r is Ok ==> final(self).inner().memtables().value_of(key@) == Some(
                Seq::<u8>::empty(),
            ) && LsmStorageInner::write_done(
                old(self).inner(),
                final(self).inner(),
                old(self).inner().with_write(key@, Seq::<u8>::empty()),
                crate::block::encoded_entry(key@, Seq::<u8>::empty()),
            ),
    {
        self.inner.delete(key)
    }

    /// Stores a batch of entries; see `LsmStorageInner::batch_put`.
    pub fn batch_put(&mut self, entries: &[(Vec<u8>, Vec<u8>)]) -> (r: Result<(), LsmError>)
        requires
            old(self).wf(),
        ensures
            final(self).wf(),
            !crate::mem_table::keyed(crate::wal::Wal::entries_view(entries@)) ==> r == Err::<
                (),
                LsmError,
            >(LsmError::EmptyKey),
            crate::mem_table::keyed(crate::wal::Wal::entries_view(entries@))
                && !crate::wal::storable(crate::wal::Wal::entries_view(entries@)) ==> r == Err::<
                (),
                LsmError,
            >(LsmError::Overflow),
            r matches Err(e) ==> e == LsmError::EmptyKey || e == LsmError::Overflow,
            crate::mem_table::keyed(crate::wal::Wal::entries_view(entries@))
                && crate::wal::storable(crate::wal::Wal::entries_view(entries@))
                && old(self).inner().memtables().active().wal().sequence() < u64::MAX
                && old(self).inner().memtables().next_id() < usize::MAX ==> r is Ok,
            r is Ok ==> forall|key: Seq<u8>| #[trigger]
                final(self).inner().lookup(key) == match crate::mem_table::batch_first(
                    crate::wal::Wal::entries_view(entries@),
                    key,
                    0,
                ) {
                    Some(value) => shown(Some(value)),
                    None => old(self).inner().lookup(key),
                },
            r is Err ==> forall|key: Seq<u8>| #[trigger]
                final(self).inner().lookup(key) == old(self).inner().lookup(key)
                    || crate::mem_table::batch_first(
                    crate::wal::Wal::entries_view(entries@),
                    key,
                    0,
                ) is Some,
            crate::mem_table::error_of(r) == old(self).inner().put_error(
                crate::wal::Wal::entries_view(entries@),
            ),
            r is Err ==> final(self).inner() == old(self).inner(),
            final(self).inner().lvctl() == old(self).inner().lvctl(),
            r is Ok ==> LsmStorageInner::write_done(
                old(self).inner(),
                final(self).inner(),
                MemTable::batch_onto(
                    crate::wal::Wal::entries_view(entries@),
                    0,
                    old(self).inner().memtables().active().entries(),
                    (old(self).inner().memtables().active().wal().sequence() + 1) as u64,
                ),
                crate::wal::wal_records(crate::wal::Wal::entries_view(entries@)),
            ),
    {
        self.inner.batch_put(entries)
    }

    /// Flushes everything; see `LsmStorageInner::sync`.
    pub fn sync(&mut self) -> (r: Result<Option<Flushed>, LsmError>)
        requires
            old(self).wf(),
        ensures
            final(self).wf(),
            r matches Ok(Some(flushed)) ==> final(self).inner().memtables().immutables().len() == 0
                && final(self).inner().memtables().active().entries()
                == crate::mem_table::no_entries(),
            old(self).inner().lvctl().inner().all_sound()
                ==> final(self).inner().lvctl().inner().all_sound(),
            forall|key: Seq<u8>| #[trigger]
                final(self).inner().lookup(key) == old(self).inner().lookup(key),
            LsmStorageInner::synced(old(self).inner(), final(self).inner(), r),
    {
        self.inner.sync()
    }

    /// An iterator over the keys between two bounds; see
    /// `LsmStorageInner::scan`.
    pub fn scan(&self, lower: Bound<&[u8]>, upper: Bound<&[u8]>) -> (r: Result<
        FusedIterator<LsmIterator>,
        LsmError,
    >)
        requires
            self.wf(),
        ensures
            r matches Ok(iter) ==> iter.wf() && (self.inner().lvctl().inner().all_sound()
                ==> iter.reliable() && exists|mems: Seq<Seq<(Seq<u8>, Seq<u8>)>>|
                #![trigger self.inner().scanned(mems, lower, upper)]
                self.inner().listed(mems, lower, upper) && iter.remaining()
                    == self.inner().scanned(mems, lower, upper)),
            self.inner().lvctl().inner().all_sound() ==> r is Ok,
    {
        self.inner.scan(lower, upper)
    }

    /// One round of the flush worker; see `LsmStorageInner::start_flush`.
    pub fn start_flush(&mut self, urgent: bool) -> (r: Result<Option<Flushed>, LsmError>)
        requires
            old(self).wf(),
        ensures
            final(self).wf(),
            old(self).inner().lvctl().inner().all_sound()
                ==> final(self).inner().lvctl().inner().all_sound(),
            r matches Ok(None) ==> final(self).inner().memtables() == old(self).inner().memtables()
                && final(self).inner().lvctl() == old(self).inner().lvctl(),
            forall|key: Seq<u8>| #[trigger]
                final(self).inner().lookup(key) == old(self).inner().lookup(key),
            LsmStorageInner::flush_round(
                old(self).inner(),
                final(self).inner(),
                r,
                if urgent {
                    old(self).inner().flush_urgent()
                } else {
                    old(self).inner().flush_due()
                },
            ),
    {
        self.inner.start_flush(urgent)
    }

    /// One round of the write worker; see `LsmStorageInner::start_write`.
    pub fn start_write<S>(&mut self, queue: &mut VecDeque<Request<S>>) -> (r: (
        Vec<S>,
        Result<(), LsmError>,
    ))
        requires
            old(self).wf(),
        ensures
            final(self).wf(),
            crate::mem_table::error_of(r.1) == crate::mem_table::write_error(
                entries_of(
                    old(queue)@,
                    taken(old(queue)@, old(self).inner().options().wait_entry_num, 0, 0),
                ),
                true,
                old(self).inner().memtables().active().wal().sequence(),
            ),
            final(queue)@ == old(queue)@.skip(
                taken(old(queue)@, old(self).inner().options().wait_entry_num, 0, 0),
            ),
            r.0@ == senders_of(
                old(queue)@,
                taken(old(queue)@, old(self).inner().options().wait_entry_num, 0, 0),
            ),
            forall|key: Seq<u8>| #[trigger]
                final(self).inner().lookup(key) == match crate::mem_table::batch_first(
                    entries_of(
                        old(queue)@,
                        taken(old(queue)@, old(self).inner().options().wait_entry_num, 0, 0),
                    ),
                    key,
                    0,
                ) {
                    Some(value) => if r.1 is Ok {
                        shown(Some(value))
                    } else {
                        old(self).inner().lookup(key)
                    },
                    None => old(self).inner().lookup(key),
                },
            r.1 is Err ==> final(self).inner() == old(self).inner(),
            final(self).inner().lvctl() == old(self).inner().lvctl(),
            r.1 is Ok ==> LsmStorageInner::written(
                old(self).inner(),
                final(self).inner(),
                MemTable::batch_onto(
                    entries_of(
                        old(queue)@,
                        taken(old(queue)@, old(self).inner().options().wait_entry_num, 0, 0),
                    ),
                    0,
                    old(self).inner().memtables().active().entries(),
                    (old(self).inner().memtables().active().wal().sequence() + 1) as u64,
                ),
                crate::wal::wal_records(
                    entries_of(
                        old(queue)@,
                        taken(old(queue)@, old(self).inner().options().wait_entry_num, 0, 0),
                    ),
                ),
            ),
    {
        self.inner.start_write(queue)
    }

    /// One round of the compaction worker number `idx`; see
    /// `LevelsControllerInner::run_compactor`.
    pub fn run_compactor(&mut self, idx: usize) -> (done: Vec<Compacted>)
        requires
            old(self).wf(),
        ensures
            final(self).wf(),
            final(self).inner().memtables() == old(self).inner().memtables(),
            final(self).inner().options() == old(self).inner().options(),
            forall|k: int| 0 <= k < done@.len() ==> crate::level::well_done(#[trigger] done@[k]),
            forall|k: int|
                0 <= k < done@.len() ==> old(self).inner().lvctl().inner().full_level(
                    (#[trigger] done@[k]).task.this_level_id as int,
                ),
            done@.len() == 0 ==> final(self).inner().lvctl().inner().levels()
                == old(self).inner().lvctl().inner().levels(),
            old(self).inner().lvctl().inner().none_full() ==> done@.len() == 0,
            !old(self).inner().lvctl().inner().none_full()
                && old(self).inner().lvctl().inner().all_compactable() ==> done@.len() > 0,
            final(self).inner().memtables() == old(self).inner().memtables(),
            exists|steps: Seq<Seq<Seq<Arc<SsTable>>>>| #[trigger]
                crate::level::installed_all(
                    old(self).inner().lvctl().inner().levels(),
                    final(self).inner().lvctl().inner().levels(),
                    done@,
                    steps,
                ),
    {
        self.inner.run_compactor(idx)
    }

    /// Hands out the records of the logs that are to be appended to their
    /// files, each with the number of its memtable; see
    /// `MemTables::take_wal_records`.
    pub fn take_wal_records(&mut self) -> (records: Vec<(usize, Vec<u8>)>)
        requires
            old(self).wf(),
        ensures
            final(self).wf(),
            records@.len() == old(self).inner().memtables().unwritten().len() + 1,
            records@.last().0 == old(self).inner().memtables().active().id(),
            records@.last().1@ == old(self).inner().memtables().active().wal().pending(),
            forall|key: Seq<u8>| #[trigger]
                final(self).inner().lookup(key) == old(self).inner().lookup(key),
            LsmStorageInner::records_taken(old(self).inner(), final(self).inner(), records@),
    {
        self.inner.take_wal_records()
    }

    /// Hands out the records of the MANIFEST that are to be appended to its
    /// file.
    pub fn take_manifest_records(&mut self) -> (bytes: Vec<u8>)
        requires
            old(self).wf(),
        ensures
            final(self).wf(),
            bytes@ == old(self).inner().lvctl().inner().manifest().pending(),
            forall|key: Seq<u8>| #[trigger]
                final(self).inner().lookup(key) == old(self).inner().lookup(key),
    {
        self.inner.take_manifest_records()
    }
}

impl LsmStorageInner {
    /// One round of the compaction worker number `idx`; see
    /// `LevelsControllerInner::run_compactor`.
    pub fn run_compactor(&mut self, idx: usize) -> (done: Vec<Compacted>)
        requires
            old(self).wf(),
        ensures
            final(self).wf(),
            final(self).memtables() == old(self).memtables(),
            final(self).options() == old(self).options(),
            forall|k: int| 0 <= k < done@.len() ==> crate::level::well_done(#[trigger] done@[k]),
            forall|k: int|
                0 <= k < done@.len() ==> old(self).lvctl().inner().full_level(
                    (#[trigger] done@[k]).task.this_level_id as int,
                ),
            done@.len() == 0 ==> final(self).lvctl().inner().levels()
                == old(self).lvctl().inner().levels(),
            old(self).lvctl().inner().none_full() ==> done@.len() == 0,
            !old(self).lvctl().inner().none_full() && old(self).lvctl().inner().all_compactable()
                ==> done@.len() > 0,
            exists|steps: Seq<Seq<Seq<Arc<SsTable>>>>| #[trigger]
                crate::level::installed_all(
                    old(self).lvctl().inner().levels(),
                    final(self).lvctl().inner().levels(),
                    done@,
                    steps,
                ),
    {
        let done = self.lvctl.run_compactor(idx);
        assert(self.memtables == old(self).memtables);
        assert(self.opts == old(self).opts);
        done
    }

    /// The records of the logs were handed out: first those of the
    /// memtables that wait to be flushed which were not handed out before,
    /// then those that the memtable that takes the writes has pending;
    /// nothing is pending afterwards, and nothing else has changed.
    pub open spec fn records_taken(
        before: Self,
        after: Self,
        records: Seq<(usize, Vec<u8>)>,
    ) -> bool {
        let had = before.memtables();
        let has = after.memtables();
        &&& after.lvctl() == before.lvctl()
        &&& after.options() == before.options()
        &&& records.len() == had.unwritten().len() + 1
        &&& forall|i: int|
            0 <= i < had.unwritten().len() ==> ((#[trigger] records[i]).0, records[i].1@)
                == had.unwritten()[i]
        &&& records.last().0 == had.active().id()
        &&& records.last().1@ == had.active().wal().pending()
        &&& has.unwritten().len() == 0
        &&& has.active().wal().pending().len() == 0
        &&& has.active().entries() == had.active().entries()
        &&& has.active().wal().log() == had.active().wal().log()
        &&& has.active().wal().sequence() == had.active().wal().sequence()
        &&& has.active().id() == had.active().id()
        &&& has.immutables() == had.immutables()
        &&& has.next_id() == had.next_id()
    }

    /// Hands out the records of the logs that are to be appended to their
    /// files, each with the number of its memtable.
    pub fn take_wal_records(&mut self) -> (records: Vec<(usize, Vec<u8>)>)
        requires
            old(self).wf(),
        ensures
            final(self).wf(),
            final(self).lvctl() == old(self).lvctl(),
            final(self).options() == old(self).options(),
            records@.len() == old(self).memtables().unwritten().len() + 1,
            records@.last().0 == old(self).memtables().active().id(),
            records@.last().1@ == old(self).memtables().active().wal().pending(),
            forall|key: Seq<u8>| #[trigger] final(self).lookup(key) == old(self).lookup(key),
            Self::records_taken(*old(self), *final(self), records@),
    {
        let ghost before = self.memtables().all();
        let bytes = self.memtables.take_wal_records();
        assert(self.lvctl == old(self).lvctl);
        assert(self.opts == old(self).opts);
        proof {
            let after = self.memtables().all();
            assert(after[after.len() - 1] == self.memtables().active());
            assert(before[before.len() - 1] == old(self).memtables().active());
            assert forall|key: Seq<u8>| #[trigger] self.lookup(key) == old(self).lookup(key) by {
                assert forall|i: int| 0 <= i < before.len() - 1 implies (#[trigger] before[i])
                    == after[i] by {
                    assert(before[i] == old(self).memtables().immutables()[i]);
                    assert(after[i] == self.memtables().immutables()[i]);
                }
                lemma_mem_value_same(before, after, key, before.len() as int);
            }
        }
        bytes
    }

    /// Hands out the records of the MANIFEST that are to be appended to its
    /// file.
    pub fn take_manifest_records(&mut self) -> (bytes: Vec<u8>)
        requires
            old(self).wf(),
        ensures
            final(self).wf(),
            final(self).memtables() == old(self).memtables(),
            final(self).options() == old(self).options(),
            bytes@ == old(self).lvctl().inner().manifest().pending(),
            forall|key: Seq<u8>| #[trigger] final(self).lookup(key) == old(self).lookup(key),
    {
        let bytes = self.lvctl.take_manifest_records();
        assert(self.memtables == old(self).memtables);
        assert(self.opts == old(self).opts);
        bytes
    }
}

} // verus!
