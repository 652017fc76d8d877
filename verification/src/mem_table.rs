//! Memtables: the writes that are not yet in a table, in the order of
//! their keys, each behind its write-ahead log.

use crate::error::LsmError;
use crate::opt::LsmOptions;
use crate::iterators::StorageIterator;
use crate::key::{above_lower, below_upper, entries_sorted, key_le, key_lt, rest_of};
use crate::table::builder::SsTableBuilder;
use crate::wal::{wal_replayed, Wal};
use crossbeam_skiplist::SkipMap;
use std::ops::Bound;
use vstd::prelude::*;

verus! {

/// A value with the version of the write that it came with.
pub type Versioned = (Vec<u8>, u64);

/// A key with its value.
pub type Item = (Vec<u8>, Vec<u8>);

/// The skip list of a memtable.
pub type SkipList = SkipMap<Vec<u8>, Versioned>;

/// What a skip list holds: for each key its value and the version of the
/// write that put it there.
pub uninterp spec fn skipmap_entries(map: SkipMap<Vec<u8>, (Vec<u8>, u64)>) -> Map<
    Seq<u8>,
    (Seq<u8>, u64),
>;

/// A bound as a bound on byte strings.
pub open spec fn bound_view(bound: Bound<&[u8]>) -> Bound<Seq<u8>> {
    match bound {
        Bound::Included(key) => Bound::Included(key@),
        Bound::Excluded(key) => Bound::Excluded(key@),
        Bound::Unbounded => Bound::Unbounded,
    }
}

/// `listing` is the entries of `map` whose keys lie within the bounds, in
/// the order of their keys.
pub open spec fn is_listing(
    map: Map<Seq<u8>, (Seq<u8>, u64)>,
    lower: Bound<Seq<u8>>,
    upper: Bound<Seq<u8>>,
    listing: Seq<(Seq<u8>, Seq<u8>)>,
) -> bool {
    &&& entries_sorted(listing)
    &&& forall|i: int|
        0 <= i < listing.len() ==> {
            let key = (#[trigger] listing[i]).0;
            &&& map.contains_key(key)
            &&& map[key].0 == listing[i].1
            &&& above_lower(lower, key)
            &&& below_upper(upper, key)
        }
    &&& forall|key: Seq<u8>|
        #[trigger] map.contains_key(key) && above_lower(lower, key) && below_upper(upper, key)
            ==> exists|i: int| 0 <= i < listing.len() && (#[trigger] listing[i]).0 == key
}

/// No entries.
pub open spec fn no_entries() -> Map<Seq<u8>, (Seq<u8>, u64)> {
    Map::empty()
}

/// Calls `SkipMap::new`: a skip list without entries.
#[verifier::external_body]
fn skipmap_new() -> (list: SkipList)
    ensures
        skipmap_entries(list) == no_entries(),
{
    SkipMap::new()
}

/// Calls `SkipMap::get` and copies value and version out of the entry that
/// it finds: the entry of the key, where the list has one.
#[verifier::external_body]
fn skipmap_get(map: &SkipList, key: &[u8]) -> (found: Option<Versioned>)
    ensures
        match found {
            Some((value, version)) => skipmap_entries(*map).contains_key(key@)
                && skipmap_entries(*map)[key@] == (value@, version),
            None => !skipmap_entries(*map).contains_key(key@),
        },
{
    map.get(key).map(|entry| (entry.value().0.clone(), entry.value().1))
}

/// Calls `SkipMap::insert`, which puts the entry in the place of any entry
/// of the same key.
#[verifier::external_body]
fn skipmap_insert(
    map: &mut SkipList,
    key: Vec<u8>,
    value: Vec<u8>,
    version: u64,
)
    ensures
        skipmap_entries(*final(map)) == skipmap_entries(*old(map)).insert(
            key@,
            (value@, version),
        ),
{
    map.insert(key, (value, version));
}

/// Whether what is stored is of a version before `version`.
pub fn is_older(stored: &Versioned, version: u64) -> (older: bool)
    ensures
        older == (stored.1 < version),
{
    stored.1 < version
}

/// Calls `SkipMap::compare_insert` with `is_older` as the test: the entry
/// takes the place of an entry of the same key only where that is of an
/// older version, and is put in where the key has no entry. Gives the
/// version of the entry that the key has afterwards.
#[verifier::external_body]
fn skipmap_compare_insert(
    map: &mut SkipList,
    key: Vec<u8>,
    value: Vec<u8>,
    version: u64,
) -> (stored: u64)
    ensures
        ({
            let before = skipmap_entries(*old(map));
            if before.contains_key(key@) && !(before[key@].1 < version) {
                skipmap_entries(*final(map)) == before && stored == before[key@].1
            } else {
                skipmap_entries(*final(map)) == before.insert(key@, (value@, version)) && stored
                    == version
            }
        }),
{
    map.compare_insert(key, (value, version), |stored| is_older(stored, version)).value().1
}

/// Calls `SkipMap::range` and copies key and value out of each entry that
/// it gives: the entries whose keys lie within the bounds, in the order of
/// their keys, which for byte strings is the lexicographic one.
#[verifier::external_body]
fn skipmap_range(map: &SkipList, lower: Bound<&[u8]>, upper: Bound<&[u8]>) -> (listing: Vec<Item>)
    ensures
        is_listing(
            skipmap_entries(*map),
            bound_view(lower),
            bound_view(upper),
            Wal::entries_view(listing@),
        ),
{
    map.range::<[u8], _>((lower, upper)).map(
        |entry| (entry.key().clone(), entry.value().0.clone()),
    ).collect()
}

/// Every entry has a key.
pub open spec fn keyed(entries: Seq<(Seq<u8>, Seq<u8>)>) -> bool {
    forall|i: int| 0 <= i < entries.len() ==> (#[trigger] entries[i]).0.len() > 0
}

/// Why a write of entries fails, if it does: with `EmptyKey` where an entry
/// has no key, and else as the append to the log fails.
pub open spec fn write_error(
    entries: Seq<(Seq<u8>, Seq<u8>)>,
    is_writer: bool,
    sequence: u64,
) -> Option<LsmError> {
    if !keyed(entries) {
        Some(LsmError::EmptyKey)
    } else {
        crate::wal::append_error(crate::wal::storable(entries), is_writer, sequence)
    }
}

/// The error of a result, if it is one.
pub open spec fn error_of(r: Result<(), LsmError>) -> Option<LsmError> {
    match r {
        Ok(()) => None,
        Err(e) => Some(e),
    }
}

/// The writes of one generation: a skip list of the entries, the number of
/// their bytes, and the log that they went to first.
pub struct MemTable {
    id: usize,
    map: SkipList,
    size: usize,
    wal: Wal,
}

/// The size of an entry in a memtable: the bytes of its key and value.
pub open spec fn entry_size(key: Seq<u8>, value: Seq<u8>) -> nat {
    key.len() + value.len()
}

/// The size of a memtable after an entry of `before` bytes (zero for
/// none) gave way to one of `after` bytes; the count stops at the largest
/// number and at zero.
pub open spec fn resized(size: usize, before: nat, after: nat) -> usize {
    if after >= before {
        if size + (after - before) > usize::MAX {
            usize::MAX
        } else {
            (size + (after - before)) as usize
        }
    } else {
        if size < before - after {
            0
        } else {
            (size - (before - after)) as usize
        }
    }
}

/// The entries after a write of `version` has come to `map`: it takes the
/// place of any entry of its key that is of an older version, and is put in
/// where the key has no entry.
pub open spec fn installed(
    map: Map<Seq<u8>, (Seq<u8>, u64)>,
    key: Seq<u8>,
    value: Seq<u8>,
    version: u64,
) -> Map<Seq<u8>, (Seq<u8>, u64)> {
    if map.contains_key(key) && map[key].1 >= version {
        map
    } else {
        map.insert(key, (value, version))
    }
}

impl MemTable {
    /// The entries: for each key its value and the version of its write.
    pub closed spec fn entries(&self) -> Map<Seq<u8>, (Seq<u8>, u64)> {
        skipmap_entries(self.map)
    }

    /// The count of the bytes of the entries.
    pub closed spec fn spec_size(&self) -> usize {
        self.size
    }

    /// The number of the memtable: that in the name of the file of its log.
    pub closed spec fn spec_id(&self) -> usize {
        self.id
    }

    /// The number of the memtable: that in the name of the file of its log.
    #[verifier::when_used_as_spec(spec_id)]
    pub fn id(&self) -> (id: usize)
        ensures
            id == self.spec_id(),
    {
        self.id
    }

    /// Hands out the records of the log that are to be written to its file,
    /// and keeps none of them.
    pub fn take_wal_records(&mut self) -> (bytes: Vec<u8>)
        requires
            old(self).wf(),
        ensures
            final(self).wf(),
            bytes@ == old(self).wal().pending(),
            final(self).wal().pending().len() == 0,
            final(self).wal().log() == old(self).wal().log(),
            final(self).wal().sequence() == old(self).wal().sequence(),
            final(self).wal().is_writer() == old(self).wal().is_writer(),
            final(self).entries() == old(self).entries(),
            final(self).spec_size() == old(self).spec_size(),
            final(self).id() == old(self).id(),
    {
        let bytes = self.wal.take_pending();
        assert(self.map == old(self).map);
        assert(self.entries() == old(self).entries());
        bytes
    }

    /// The log of the memtable.
    pub closed spec fn wal(&self) -> Wal {
        self.wal
    }

    /// What holds of every memtable: its log is well formed, no version is
    /// ahead of the log, and every entry has a key and fits a record.
    pub open spec fn wf(&self) -> bool {
        &&& self.wal().wf()
        &&& forall|key: Seq<u8>| #[trigger]
            self.entries().contains_key(key) ==> {
                &&& self.entries()[key].1 <= self.wal().sequence()
                &&& 0 < key.len() <= 0xFFFF
                &&& self.entries()[key].0.len() <= 0xFFFF
            }
    }

    /// A new memtable with a new log.
    pub fn create(id: usize) -> (table: Self)
        ensures
            table.wf(),
            table.id() == id,
            table.wal().sequence() == 0,
            table.wal().pending() == Seq::<u8>::empty(),
            table.entries() == Map::<Seq<u8>, (Seq<u8>, u64)>::empty(),
            table.spec_size() == 0,
            table.wal().is_writer(),
            table.wal().log() == Seq::<u8>::empty(),
    {
        Self { id, map: skipmap_new(), size: 0, wal: Wal::create() }
    }

    /// The entries that the replay of the log `replay` leaves, from entry
    /// number `from` on, on top of `map`: each entry takes the place of
    /// any entry of its key, with version zero.
    pub open spec fn replayed_onto(
        replay: Seq<(Seq<u8>, Seq<u8>)>,
        from: int,
        map: Map<Seq<u8>, (Seq<u8>, u64)>,
    ) -> Map<Seq<u8>, (Seq<u8>, u64)>
        decreases replay.len() - from,
    {
        if from < 0 || from >= replay.len() {
            map
        } else {
            Self::replayed_onto(
                replay,
                from + 1,
                map.insert(replay[from].0, (replay[from].1, 0u64)),
            )
        }
    }

    /// The memtable of the log with the bytes `log`: what the replay of the
    /// log leaves. It takes no writes.
    pub fn open(id: usize, log: Vec<u8>) -> (table: Self)
        ensures
            table.wf(),
            table.id() == id,
            !table.wal().is_writer(),
            table.wal().log() == log@,
            table.entries() == Self::replayed_onto(
                wal_replayed(log@, 0),
                0,
                Map::<Seq<u8>, (Seq<u8>, u64)>::empty(),
            ),
    {
        let wal = Wal::open(log);
        let mut map = skipmap_new();
        let mut size: usize = 0;
        let mut iter = match wal.iter() {
            Ok(iter) => iter,
            Err(_) => { return Self { id, map, size, wal }; },
        };
        let ghost replay = iter.remaining();
        let ghost at: int = 0;
        while iter.is_valid()
            invariant
                iter.wf(),
                0 <= at <= replay.len(),
                iter.remaining() == replay.skip(at),
                Self::replayed_onto(replay, 0, Map::<Seq<u8>, (Seq<u8>, u64)>::empty())
                    == Self::replayed_onto(replay, at, skipmap_entries(map)),
                forall|key: Seq<u8>| #[trigger]
                    skipmap_entries(map).contains_key(key) ==> {
                        &&& skipmap_entries(map)[key].1 == 0
                        &&& 0 < key.len() <= 0xFFFF
                        &&& skipmap_entries(map)[key].0.len() <= 0xFFFF
                    },
                replay == wal_replayed(iter.data(), 0),
            decreases iter.remaining().len(),
        {
            let key = vstd::slice::slice_to_vec(iter.key());
            let value = vstd::slice::slice_to_vec(iter.value());
            proof {
                assert(replay[at] == iter.remaining()[0]);
                lemma_replayed_fit(iter.data(), 0, at);
            }
            size = size.saturating_add(key.len()).saturating_add(value.len());
            skipmap_insert(&mut map, key, value, 0);
            iter.next();
            proof {
                assert(replay.skip(at).skip(1) =~= replay.skip(at + 1));
                at = at + 1;
            }
        }
        Self { id, map, size, wal }
    }

    /// The count of the bytes of the entries.
    #[verifier::when_used_as_spec(spec_size)]
    pub fn size(&self) -> (n: usize)
        ensures
            n == self.spec_size(),
    {
        self.size
    }

    /// The value that the key has in this memtable; empty for a key that
    /// was deleted here.
    pub fn get(&self, key: &[u8]) -> (value: Option<Vec<u8>>)
        ensures
            match value {
                Some(v) => self.entries().contains_key(key@) && self.entries()[key@].0 == v@,
                None => !self.entries().contains_key(key@),
            },
    {
        match skipmap_get(&self.map, key) {
            Some((value, _)) => Some(value),
            None => None,
        }
    }

    /// Writes an entry: first to the log, then to the entries, under the
    /// version that the log gave.
    ///
    /// Fails with `EmptyKey` for an empty key and as the log fails; then
    /// nothing has changed.
    pub fn put(&mut self, key: &[u8], value: &[u8]) -> (r: Result<(), LsmError>)
        requires
            old(self).wf(),
        ensures
            final(self).wf(),
            final(self).id() == old(self).id(),
            final(self).wal().is_writer() == old(self).wal().is_writer(),
            r is Err ==> *final(self) == *old(self),
            match r {
                Ok(()) => {
                    &&& final(self).entries() == old(self).entries().insert(
                        key@,
                        (value@, final(self).wal().sequence()),
                    )
                    &&& final(self).wal().sequence() == old(self).wal().sequence() + 1
                    &&& final(self).wal().log() == old(self).wal().log()
                        + crate::block::encoded_entry(key@, value@)
                    &&& final(self).spec_size() == resized(
                        old(self).spec_size(),
                        Self::size_in(old(self).entries(), key@),
                        entry_size(key@, value@),
                    )
                },
                Err(e) => {
                    &&& final(self).entries() == old(self).entries()
                    &&& final(self).wal().log() == old(self).wal().log()
                    &&& final(self).spec_size() == old(self).spec_size()
                },
            },
            error_of(r) == write_error(
                seq![(key@, value@)],
                old(self).wal().is_writer(),
                old(self).wal().sequence(),
            ),
            old(self).wal().is_writer() && 0 < key@.len() <= 0xFFFF && value@.len() <= 0xFFFF
                && old(self).wal().sequence() < u64::MAX ==> r is Ok,
    {
        proof {
            let one = seq![(key@, value@)];
            assert(one[0] == (key@, value@));
            assert(keyed(one) <==> key@.len() > 0);
            assert(crate::wal::storable(one) <==> key@.len() <= 0xFFFF && value@.len() <= 0xFFFF);
        }
        if key.len() == 0 {
            return Err(LsmError::EmptyKey);
        }
        let r = self.wal.add(key, value);
        assert(self.map == old(self).map);
        assert(self.entries() == old(self).entries());
        let version = match r {
            Ok(version) => version,
            Err(e) => {
                assert(self.wal().sequence() == old(self).wal().sequence());
                return Err(e);
            },
        };
        self.do_mem_put(key, value, version);
        Ok(())
    }

    /// The size of the entry that `key` has in `map`; zero for none.
    pub open spec fn size_in(map: Map<Seq<u8>, (Seq<u8>, u64)>, key: Seq<u8>) -> nat {
        if map.contains_key(key) {
            entry_size(key, map[key].0)
        } else {
            0
        }
    }

    /// Writes a batch of entries: all of them to the log in one append,
    /// then each to the entries, all under the version that the log gave;
    /// of two entries of one key in the batch the first stays.
    ///
    /// Fails with `EmptyKey` where a key is empty and as the log fails;
    /// then nothing has changed.
    pub fn put_entries(&mut self, entries: &[(Vec<u8>, Vec<u8>)]) -> (r: Result<(), LsmError>)
        requires
            old(self).wf(),
        ensures
            final(self).wf(),
            final(self).id() == old(self).id(),
            final(self).wal().is_writer() == old(self).wal().is_writer(),
            r is Err ==> *final(self) == *old(self),
            match r {
                Ok(()) => {
                    &&& final(self).entries() == Self::batch_onto(
                        Wal::entries_view(entries@),
                        0,
                        old(self).entries(),
                        final(self).wal().sequence(),
                    )
                    &&& final(self).wal().sequence() == old(self).wal().sequence() + 1
                    &&& final(self).wal().log() == old(self).wal().log() + crate::wal::wal_records(
                        Wal::entries_view(entries@),
                    )
                },
                Err(e) => {
                    &&& final(self).entries() == old(self).entries()
                    &&& final(self).wal().log() == old(self).wal().log()
                    &&& final(self).spec_size() == old(self).spec_size()
                },
            },
            error_of(r) == write_error(
                Wal::entries_view(entries@),
                old(self).wal().is_writer(),
                old(self).wal().sequence(),
            ),
    {
        let mut i: usize = 0;
        while i < entries.len()
            invariant
                i <= entries@.len(),
                *self == *old(self),
                self.wf(),
                forall|j: int| 0 <= j < i ==> (#[trigger] entries@[j]).0@.len() > 0,
            decreases entries@.len() - i,
        {
            if entries[i].0.len() == 0 {
                assert(Wal::entries_view(entries@)[i as int].0.len() == 0);
                return Err(LsmError::EmptyKey);
            }
            i += 1;
        }
        assert(keyed(Wal::entries_view(entries@))) by {
            assert forall|j: int| 0 <= j < entries@.len() implies (#[trigger] Wal::entries_view(
                entries@,
            )[j]).0.len() > 0 by {
                assert(entries@[j].0@.len() > 0);
            }
        }
        let r = self.wal.add_entries(entries);
        assert(self.map == old(self).map);
        assert(self.entries() == old(self).entries());
        let version = match r {
            Ok(version) => version,
            Err(e) => {
                assert(self.wal().sequence() == old(self).wal().sequence());
                return Err(e);
            },
        };
        let ghost batch = Wal::entries_view(entries@);
        let ghost logged = self.wal();
        let mut i: usize = 0;
        while i < entries.len()
            invariant
                i <= entries@.len(),
                batch == Wal::entries_view(entries@),
                self.wf(),
                self.id() == old(self).id(),
                self.wal() == logged,
                version == logged.sequence(),
                forall|j: int|
                    0 <= j < entries@.len() ==> 0 < (#[trigger] entries@[j]).0@.len() <= 0xFFFF
                        && entries@[j].1@.len() <= 0xFFFF,
                Self::batch_onto(batch, 0, old(self).entries(), version) == Self::batch_onto(
                    batch,
                    i as int,
                    self.entries(),
                    version,
                ),
            decreases entries@.len() - i,
        {
            assert(batch[i as int] == (entries@[i as int].0@, entries@[i as int].1@));
            self.do_mem_put(entries[i].0.as_slice(), entries[i].1.as_slice(), version);
            i += 1;
        }
        Ok(())
    }

    /// The entries after the batch from entry number `from` on has come to
    /// `map`, each entry under the version `version`.
    pub open spec fn batch_onto(
        batch: Seq<(Seq<u8>, Seq<u8>)>,
        from: int,
        map: Map<Seq<u8>, (Seq<u8>, u64)>,
        version: u64,
    ) -> Map<Seq<u8>, (Seq<u8>, u64)>
        decreases batch.len() - from,
    {
        if from < 0 || from >= batch.len() {
            map
        } else {
            Self::batch_onto(
                batch,
                from + 1,
                installed(map, batch[from].0, batch[from].1, version),
                version,
            )
        }
    }

    /// The key has an entry in `map` that a write of `version` does not
    /// replace.
    pub open spec fn shadowed(
        map: Map<Seq<u8>, (Seq<u8>, u64)>,
        key: Seq<u8>,
        version: u64,
    ) -> bool {
        map.contains_key(key) && map[key].1 >= version
    }

    /// Brings a write of the version of the last append to the entries and,
    /// where it is taken, counts its bytes in the place of those of the
    /// entry that gives way.
    fn do_mem_put(&mut self, key: &[u8], value: &[u8], version: u64)
        requires
            old(self).wf(),
            version == old(self).wal().sequence(),
            0 < key@.len() <= 0xFFFF,
            value@.len() <= 0xFFFF,
        ensures
            final(self).wf(),
            final(self).id() == old(self).id(),
            final(self).wal() == old(self).wal(),
            final(self).entries() == installed(old(self).entries(), key@, value@, version),
            final(self).spec_size() == if Self::shadowed(old(self).entries(), key@, version) {
                old(self).spec_size()
            } else {
                resized(
                    old(self).spec_size(),
                    Self::size_in(old(self).entries(), key@),
                    entry_size(key@, value@),
                )
            },
    {
        let ghost before = self.entries();
        let (old_size, fresh) = match skipmap_get(&self.map, key) {
            Some((stored, stored_version)) => {
                assert(before.contains_key(key@));
                (key.len() + stored.len(), stored_version < version)
            },
            None => (0, true),
        };
        let insert_version = skipmap_compare_insert(
            &mut self.map,
            vstd::slice::slice_to_vec(key),
            vstd::slice::slice_to_vec(value),
            version,
        );
        assert(self.wal == old(self).wal);
        proof {
            if before.contains_key(key@) {
                assert(before[key@].1 <= version);
            }
            assert forall|k: Seq<u8>| #[trigger] self.entries().contains_key(k) implies {
                &&& self.entries()[k].1 <= self.wal().sequence()
                &&& 0 < k.len() <= 0xFFFF
                &&& self.entries()[k].0.len() <= 0xFFFF
            } by {
                if k != key@ {
                    assert(before.contains_key(k));
                }
            }
        }
        if version != insert_version || !fresh {
            return ;
        }
        let new_size = key.len() + value.len();
        if new_size >= old_size {
            self.size = self.size.saturating_add(new_size - old_size);
        } else {
            self.size = self.size.saturating_sub(old_size - new_size);
        }
    }

    /// An iterator over the entries whose keys lie within the bounds, as
    /// they are now, in the order of their keys.
    pub fn scan(&self, lower: Bound<&[u8]>, upper: Bound<&[u8]>) -> (iter: MemTableIterator)
        ensures
            iter.wf(),
            is_listing(self.entries(), bound_view(lower), bound_view(upper), iter.remaining()),
            iter.reliable(),
    {
        let items = skipmap_range(&self.map, lower, upper);
        let iter = MemTableIterator { items, idx: 0 };
        assert(iter.remaining() =~= Wal::entries_view(items@));
        iter
    }

    /// Hands all entries to the builder of a table, in the order of their
    /// keys.
    ///
    /// Fails as the builder fails to take an entry, see `entries_laid`.
    pub fn flush(&self, builder: &mut SsTableBuilder) -> (r: Result<(), LsmError>)
        requires
            self.wf(),
            old(builder).wf(),
        ensures
            match crate::table::builder::entries_laid(
                old(builder).layout(),
                old(builder).options(),
                listing_of(self.entries()),
                0,
            ) {
                Ok(l) => r is Ok && final(builder).layout() == l,
                Err(e) => r matches Err(x) && x == e,
            },
            match r {
                Ok(()) => {
                    &&& final(builder).wf()
                    &&& final(builder).options() == old(builder).options()
                    &&& final(builder).entries() == old(builder).entries() + listing_of(
                        self.entries(),
                    )
                    &&& final(builder).entries().len() >= old(builder).entries().len()
                    &&& final(builder).entries().take(old(builder).entries().len() as int)
                        == old(builder).entries()
                    &&& is_listing(
                        self.entries(),
                        Bound::Unbounded,
                        Bound::Unbounded,
                        final(builder).entries().skip(old(builder).entries().len() as int),
                    )
                },
                Err(e) => e == LsmError::Overflow || e == LsmError::Compression || e
                    == LsmError::UnknownCodec,
            },
    {
        let items = skipmap_range(&self.map, Bound::Unbounded, Bound::Unbounded);
        let ghost listing = Wal::entries_view(items@);
        let ghost before = builder.entries();
        let ghost laid = crate::table::builder::entries_laid(
            builder.layout(),
            builder.options(),
            listing_of(self.entries()),
            0,
        );
        proof {
            lemma_listing_unique(
                self.entries(),
                Bound::Unbounded,
                Bound::Unbounded,
                listing,
                listing_of(self.entries()),
            );
        }
        let mut i: usize = 0;
        while i < items.len()
            invariant
                i <= items@.len(),
                self.wf(),
                builder.wf(),
                builder.options() == old(builder).options(),
                before == old(builder).entries(),
                listing == Wal::entries_view(items@),
                listing == listing_of(self.entries()),
                is_listing(self.entries(), Bound::Unbounded, Bound::Unbounded, listing),
                builder.entries() == before + listing.take(i as int),
                laid == crate::table::builder::entries_laid(
                    old(builder).layout(),
                    old(builder).options(),
                    listing_of(self.entries()),
                    0,
                ),
                laid == crate::table::builder::entries_laid(
                    builder.layout(),
                    builder.options(),
                    listing,
                    i as int,
                ),
            decreases items@.len() - i,
        {
            assert(listing[i as int] == (items@[i as int].0@, items@[i as int].1@));
            assert(self.entries().contains_key(listing[i as int].0));

            match builder.add(items[i].0.as_slice(), items[i].1.as_slice()) {
                Ok(()) => {},
                Err(e) => { return Err(e); },
            }
            assert(builder.entries() =~= before + listing.take(i + 1));
            i += 1;
        }
        proof {
            assert(listing.take(items@.len() as int) =~= listing);
            assert((before + listing).take(before.len() as int) =~= before);
            assert((before + listing).skip(before.len() as int) =~= listing);
        }
        Ok(())
    }
}

/// Every entry that a replay gives has a key and fits a record.
pub proof fn lemma_replayed_fit(data: Seq<u8>, at: int, i: int)
    requires
        0 <= i < wal_replayed(data, at).len(),
    ensures
        0 < wal_replayed(data, at)[i].0.len() <= 0xFFFF,
        wal_replayed(data, at)[i].1.len() <= 0xFFFF,
    decreases data.len() - at,
{
    if crate::wal::record_at(data, at) {
        if i > 0 {
            lemma_replayed_fit(data, crate::wal::record_end(data, at), i - 1);
        }
    }
}

/// An iterator over the entries that a memtable had within bounds when the
/// iterator was made.
pub struct MemTableIterator {
    items: Vec<(Vec<u8>, Vec<u8>)>,
    idx: usize,
}

impl MemTableIterator {
    /// The entries that were found.
    pub closed spec fn items(&self) -> Seq<(Seq<u8>, Seq<u8>)> {
        Wal::entries_view(self.items@)
    }

    /// The number of entries given so far.
    pub closed spec fn index(&self) -> int {
        self.idx as int
    }
}

impl StorageIterator for MemTableIterator {
    open spec fn wf(&self) -> bool {
        0 <= self.index() <= self.items().len()
    }

    open spec fn remaining(&self) -> Seq<(Seq<u8>, Seq<u8>)> {
        self.items().skip(self.index())
    }

    open spec fn reliable(&self) -> bool {
        true
    }

    fn value(&self) -> (value: &[u8]) {
        self.items[self.idx].1.as_slice()
    }

    fn key(&self) -> (key: &[u8]) {
        self.items[self.idx].0.as_slice()
    }

    fn is_valid(&self) -> (valid: bool) {
        self.idx < self.items.len()
    }

    fn next(&mut self) -> (r: Result<(), LsmError>) {
        if self.idx < self.items.len() {
            self.idx += 1;
            assert(self.remaining() =~= old(self).remaining().skip(1));
        }
        Ok(())
    }
}

} // verus!

verus! {

/// The value that the newest of the first `upto` memtables that has the
/// key has for it; the memtables stand in the order of their age, the
/// oldest first.
pub open spec fn mem_value(tables: Seq<MemTable>, key: Seq<u8>, upto: int) -> Option<Seq<u8>>
    decreases upto,
{
    if upto <= 0 {
        None
    } else if tables[upto - 1].entries().contains_key(key) {
        Some(tables[upto - 1].entries()[key].0)
    } else {
        mem_value(tables, key, upto - 1)
    }
}

/// The value of the first entry of the batch, from entry number `from` on,
/// that has the key.
pub open spec fn batch_first(batch: Seq<(Seq<u8>, Seq<u8>)>, key: Seq<u8>, from: int) -> Option<
    Seq<u8>,
>
    decreases batch.len() - from,
{
    if from < 0 || from >= batch.len() {
        None
    } else if batch[from].0 == key {
        Some(batch[from].1)
    } else {
        batch_first(batch, key, from + 1)
    }
}

/// What a batch leaves for a key: where the key has an entry that the
/// batch does not replace, that entry; else the first entry of the batch
/// with the key, and without one what the key had.
pub proof fn lemma_batch_onto(
    batch: Seq<(Seq<u8>, Seq<u8>)>,
    from: int,
    map: Map<Seq<u8>, (Seq<u8>, u64)>,
    version: u64,
    key: Seq<u8>,
)
    requires
        0 <= from <= batch.len(),
    ensures
        ({
            let after = MemTable::batch_onto(batch, from, map, version);
            let first = batch_first(batch, key, from);
            &&& after.contains_key(key) <==> map.contains_key(key) || first is Some
            &&& after.contains_key(key) ==> after[key].0 == if MemTable::shadowed(
                map,
                key,
                version,
            ) {
                map[key].0
            } else {
                match first {
                    Some(value) => value,
                    None => map[key].0,
                }
            }
        }),
    decreases batch.len() - from,
{
    if from < batch.len() {
        let next = installed(map, batch[from].0, batch[from].1, version);
        lemma_batch_onto(batch, from + 1, next, version, key);
    }
}

/// The value that the first memtables have for a key depends on their
/// entries alone.
pub proof fn lemma_mem_value_prefix(a: Seq<MemTable>, b: Seq<MemTable>, key: Seq<u8>, upto: int)
    requires
        0 <= upto <= a.len(),
        upto <= b.len(),
        forall|i: int| 0 <= i < upto ==> (#[trigger] a[i]).entries() == b[i].entries(),
    ensures
        mem_value(a, key, upto) == mem_value(b, key, upto),
    decreases upto,
{
    if upto > 0 {
        assert(a[upto - 1].entries() == b[upto - 1].entries());
        lemma_mem_value_prefix(a, b, key, upto - 1);
    }
}

/// The entries of `map` within the bounds have one listing.
pub proof fn lemma_listing_unique(
    map: Map<Seq<u8>, (Seq<u8>, u64)>,
    lower: Bound<Seq<u8>>,
    upper: Bound<Seq<u8>>,
    a: Seq<(Seq<u8>, Seq<u8>)>,
    b: Seq<(Seq<u8>, Seq<u8>)>,
)
    requires
        is_listing(map, lower, upper, a),
        is_listing(map, lower, upper, b),
    ensures
        a == b,
{
    assert forall|i: int| 0 <= i < a.len() implies b.contains(#[trigger] a[i]) by {
        let key = a[i].0;
        assert(map.contains_key(key) && above_lower(lower, key) && below_upper(upper, key));
        let j = choose|j: int| 0 <= j < b.len() && (#[trigger] b[j]).0 == key;
        assert(b[j].1 == map[key].0);
        assert(b[j] == a[i]);
    }
    assert forall|j: int| 0 <= j < b.len() implies a.contains(#[trigger] b[j]) by {
        let key = b[j].0;
        assert(map.contains_key(key) && above_lower(lower, key) && below_upper(upper, key));
        let i = choose|i: int| 0 <= i < a.len() && (#[trigger] a[i]).0 == key;
        assert(a[i].1 == map[key].0);
        assert(a[i] == b[j]);
    }
    crate::key::lemma_sorted_same(a, b);
}

/// All entries of `map`, in the order of their keys.
pub open spec fn listing_of(map: Map<Seq<u8>, (Seq<u8>, u64)>) -> Seq<(Seq<u8>, Seq<u8>)> {
    choose|listing: Seq<(Seq<u8>, Seq<u8>)>|
        is_listing(map, Bound::Unbounded, Bound::Unbounded, listing)
}

/// What a flush of the memtables makes of their entries: the entries in
/// the order of their keys, of entries with one key that of the newest
/// memtable; the memtables stand in the order of their age, the oldest
/// first.
pub open spec fn waiting_entries(tables: Seq<MemTable>) -> Seq<(Seq<u8>, Seq<u8>)> {
    crate::iterators::merge_iterator::merged(
        Seq::new(tables.len(), |j: int| listing_of(tables[tables.len() - 1 - j].entries())),
    )
}

/// A listing of all entries of a memtable has for each key what the
/// memtable has for it.
pub proof fn lemma_listing_value(
    map: Map<Seq<u8>, (Seq<u8>, u64)>,
    listing: Seq<(Seq<u8>, Seq<u8>)>,
    key: Seq<u8>,
)
    requires
        is_listing(map, Bound::Unbounded, Bound::Unbounded, listing),
    ensures
        crate::key::value_in(listing, key) == if map.contains_key(key) {
            Some(map[key].0)
        } else {
            None::<Seq<u8>>
        },
{
    if map.contains_key(key) {
        let i = choose|i: int| 0 <= i < listing.len() && (#[trigger] listing[i]).0 == key;
        crate::key::lemma_value_at(listing, key, i);
    } else if crate::key::has_key(listing, key) {
        let i = choose|i: int| 0 <= i < listing.len() && (#[trigger] listing[i]).0 == key;
        assert(map.contains_key(listing[i].0));
    }
}

/// Listings of all entries of memtables, that of the newest memtable
/// first, have for each key what the newest memtable that has the key has
/// for it.
pub proof fn lemma_listings_value(
    tables: Seq<MemTable>,
    sources: Seq<Seq<(Seq<u8>, Seq<u8>)>>,
    key: Seq<u8>,
    from: int,
)
    requires
        sources.len() == tables.len(),
        0 <= from <= tables.len(),
        forall|j: int|
            0 <= j < sources.len() ==> is_listing(
                tables[tables.len() - 1 - j].entries(),
                Bound::Unbounded,
                Bound::Unbounded,
                #[trigger] sources[j],
            ),
    ensures
        crate::iterators::merge_iterator::first_in(sources, key, from) == mem_value(
            tables,
            key,
            tables.len() - from,
        ),
    decreases tables.len() - from,
{
    if from < tables.len() {
        lemma_listing_value(tables[tables.len() - 1 - from].entries(), sources[from], key);
        lemma_listings_value(tables, sources, key, from + 1);
    }
}

/// `number` is the number of the memtable that comes after those of the
/// logs: one above the largest number of a log, and one where there is no
/// log.
pub open spec fn is_next_number(logs: Seq<(usize, Vec<u8>)>, number: usize) -> bool {
    &&& forall|k: int| 0 <= k < logs.len() ==> (#[trigger] logs[k]).0 < number
    &&& number == 1 || exists|k: int| 0 <= k < logs.len() && (#[trigger] logs[k]).0 + 1 == number
}

/// The memtables of an engine: the one that takes the writes, and those
/// that wait to be flushed, the oldest first.
pub struct MemTables {
    memtable: MemTable,
    imm_memtables: std::collections::VecDeque<MemTable>,
    next_mem_id: usize,
    opt: LsmOptions,
    unwritten: Vec<(usize, Vec<u8>)>,
}

impl MemTables {
    /// The memtable that takes the writes.
    pub closed spec fn active(&self) -> MemTable {
        self.memtable
    }

    /// The memtables that wait to be flushed, the oldest first.
    pub closed spec fn immutables(&self) -> Seq<MemTable> {
        self.imm_memtables@
    }

    /// The number of the next memtable.
    pub closed spec fn next_id(&self) -> usize {
        self.next_mem_id
    }

    /// The options.
    pub closed spec fn options(&self) -> LsmOptions {
        self.opt
    }

    /// The records of the logs of memtables that wait to be flushed which
    /// are not yet handed out to be written, each with the number of its
    /// memtable.
    pub closed spec fn unwritten(&self) -> Seq<(usize, Seq<u8>)> {
        Seq::new(self.unwritten@.len(), |i: int| (self.unwritten@[i].0, self.unwritten@[i].1@))
    }

    /// All memtables in the order of their age, the oldest first.
    pub open spec fn all(&self) -> Seq<MemTable> {
        self.immutables().push(self.active())
    }

    /// What holds of the memtables at all times: each is well formed, and
    /// the numbers of all of them lie below the next number.
    pub open spec fn wf(&self) -> bool {
        &&& self.active().wf()
        &&& self.active().id() < self.next_id()
        &&& forall|i: int|
            0 <= i < self.immutables().len() ==> (#[trigger] self.immutables()[i]).wf()
                && self.immutables()[i].id() < self.next_id()
    }

    /// The value that the memtables have for the key: that of the newest
    /// memtable that has it.
    pub open spec fn value_of(&self, key: Seq<u8>) -> Option<Seq<u8>> {
        mem_value(self.all(), key, self.all().len() as int)
    }

    /// What holds of the memtables of a database that was opened: one
    /// waits for each log, in the order of the numbers of the logs, with the
    /// entries that the replay of its log gives; the one that takes the
    /// writes is new, and its number is one above the largest of the logs,
    /// and one where there is no log.
    pub open spec fn opened(tables: Self, opt: LsmOptions, logs: Seq<(usize, Vec<u8>)>) -> bool {
        &&& tables.wf()
        &&& tables.options() == opt
        &&& tables.immutables().len() == logs.len()
        &&& tables.active().entries() == no_entries()
        &&& tables.active().wal().is_writer()
        &&& tables.active().wal().sequence() == 0
        &&& tables.active().wal().log() == Seq::<u8>::empty()
        &&& tables.active().id() + 1 == tables.next_id()
        &&& tables.unwritten().len() == 0
        &&& is_next_number(logs, tables.active().id())
        &&& forall|i: int, j: int|
            0 <= i < j < tables.immutables().len() ==> (#[trigger] tables.immutables()[i]).id() <= (
            #[trigger] tables.immutables()[j]).id()
        &&& forall|i: int|
            0 <= i < tables.immutables().len() ==> {
                let table = #[trigger] tables.immutables()[i];
                &&& table.id() < tables.active().id()
                &&& table.entries() == MemTable::replayed_onto(
                    wal_replayed(table.wal().log(), 0),
                    0,
                    no_entries(),
                )
                &&& exists|k: int|
                    0 <= k < logs.len() && (#[trigger] logs[k]).0 == table.id() && logs[k].1@
                        == table.wal().log()
            }
    }

    /// The memtables of a database: one for each log, in the order of the
    /// numbers of the logs, and a new one behind them that takes the
    /// writes. Its number is one above the largest of the logs, and one
    /// where there is no log. Fails with `Overflow` where the numbers are
    /// exhausted.
    pub fn new(opt: LsmOptions, logs: Vec<(usize, Vec<u8>)>) -> (r: Result<Self, LsmError>)
        ensures
            r matches Ok(tables) ==> Self::opened(tables, opt, logs@),
            r matches Err(e) ==> e == LsmError::Overflow,
            r is Ok <==> forall|k: int|
                0 <= k < logs@.len() ==> (#[trigger] logs@[k]).0 < usize::MAX - 1,
    {
        let (imm_memtables, next_mem_id) = match Self::open_mem_tables(logs) {
            Ok(opened) => opened,
            Err(e) => { return Err(e); },
        };
        if next_mem_id == usize::MAX {
            return Err(LsmError::Overflow);
        }
        Ok(
            MemTables {
                memtable: MemTable::create(next_mem_id),
                imm_memtables,
                next_mem_id: next_mem_id + 1,
                opt,
                unwritten: Vec::new(),
            },
        )
    }

    /// Opens the memtable of each log, and gives them in the order of
    /// their numbers, with the number above the largest.
    fn open_mem_tables(logs: Vec<(usize, Vec<u8>)>) -> (r: Result<
        (std::collections::VecDeque<MemTable>, usize),
        LsmError,
    >)
        ensures
            r matches Ok(opened) ==> {
                &&& opened.0@.len() == logs@.len()
                &&& forall|i: int, j: int|
                    0 <= i < j < opened.0@.len() ==> (#[trigger] opened.0@[i]).id() <= (
                    #[trigger] opened.0@[j]).id()
                &&& forall|i: int|
                    0 <= i < opened.0@.len() ==> {
                        let table = #[trigger] opened.0@[i];
                        &&& table.wf()
                        &&& table.id() < opened.1
                        &&& table.entries() == MemTable::replayed_onto(
                            wal_replayed(table.wal().log(), 0),
                            0,
                            no_entries(),
                        )
                        &&& exists|k: int|
                            0 <= k < logs@.len() && (#[trigger] logs@[k]).0 == table.id()
                                && logs@[k].1@ == table.wal().log()
                    }
                &&& (forall|k: int|
                    0 <= k < logs@.len() ==> (#[trigger] logs@[k]).0 < usize::MAX - 1)
                    ==> opened.1 < usize::MAX
                &&& is_next_number(logs@, opened.1)
            },
            r matches Err(e) ==> e == LsmError::Overflow,
            r is Err ==> exists|k: int| 0 <= k < logs@.len() && (#[trigger] logs@[k]).0 == usize::MAX,
            (forall|k: int| 0 <= k < logs@.len() ==> (#[trigger] logs@[k]).0 < usize::MAX - 1)
                ==> r is Ok,
    {
        let ghost given = logs@;
        let mut logs = logs;
        let mut mts: Vec<MemTable> = Vec::new();
        let mut next_mem_fid: usize = 0;
        while logs.len() > 0
            invariant
                logs@.len() <= given.len(),
                logs@ == given.take(logs@.len() as int),
                mts@.len() + logs@.len() == given.len(),
                next_mem_fid == 0 || exists|k: int|
                    0 <= k < given.len() && (#[trigger] given[k]).0 == next_mem_fid,
                forall|k: int|
                    logs@.len() <= k < given.len() ==> (#[trigger] given[k]).0 <= next_mem_fid,
                forall|i: int, j: int|
                    0 <= i < j < mts@.len() ==> (#[trigger] mts@[i]).id() <= (#[trigger] mts@[j]).id(),
                forall|i: int|
                    0 <= i < mts@.len() ==> {
                        let table = #[trigger] mts@[i];
                        &&& table.wf()
                        &&& table.id() <= next_mem_fid
                        &&& table.entries() == MemTable::replayed_onto(
                            wal_replayed(table.wal().log(), 0),
                            0,
                            no_entries(),
                        )
                        &&& exists|k: int|
                            0 <= k < given.len() && (#[trigger] given[k]).0 == table.id()
                                && given[k].1@ == table.wal().log()
                    },
            decreases logs@.len(),
        {
            let ghost at = logs@.len() - 1;
            let (fid, log) = match logs.pop() {
                Some(entry) => entry,
                None => { return Err(LsmError::MissingTable); },
            };
            assert(given[at] == (fid, log));
            let memtable = MemTable::open(fid, log);
            if fid > next_mem_fid {
                next_mem_fid = fid;
            }
            let mut p: usize = 0;
            while p < mts.len() && mts[p].id() <= fid
                invariant
                    p <= mts@.len(),
                    forall|k: int| 0 <= k < p ==> (#[trigger] mts@[k]).id() <= fid,
                decreases mts@.len() - p,
            {
                p += 1;
            }
            let ghost before = mts@;
            mts.insert(p, memtable);
            proof {
                assert forall|i: int, j: int| 0 <= i < j < mts@.len() implies (
                #[trigger] mts@[i]).id() <= (#[trigger] mts@[j]).id() by {
                    let i0 = if i < p { i } else { i - 1 };
                    let j0 = if j < p { j } else { j - 1 };
                    if i == p {
                        assert(mts@[j] == before[j - 1]);
                        if j - 1 > p {
                            assert(before[p as int].id() <= before[j - 1].id());
                        }
                    } else if j == p {
                        assert(mts@[i] == before[i]);
                    } else {
                        assert(mts@[i] == before[i0] && mts@[j] == before[j0]);
                    }
                }
                assert forall|i: int| 0 <= i < mts@.len() implies {
                    let table = #[trigger] mts@[i];
                    &&& table.wf()
                    &&& table.id() <= next_mem_fid
                    &&& table.entries() == MemTable::replayed_onto(
                        wal_replayed(table.wal().log(), 0),
                        0,
                        no_entries(),
                    )
                    &&& exists|k: int|
                        0 <= k < given.len() && (#[trigger] given[k]).0 == table.id()
                            && given[k].1@ == table.wal().log()
                } by {
                    if i < p {
                        assert(mts@[i] == before[i]);
                    } else if i > p {
                        assert(mts@[i] == before[i - 1]);
                    } else {
                        assert(given[at].0 == mts@[i].id());
                    }
                }
                assert(logs@ =~= given.take(logs@.len() as int));
            }
        }
        if next_mem_fid == usize::MAX {
            return Err(LsmError::Overflow);
        }
        let ghost largest = next_mem_fid;
        next_mem_fid += 1;
        let mut deque: std::collections::VecDeque<MemTable> = std::collections::VecDeque::new();
        let ghost all = mts@;
        while mts.len() > 0
            invariant
                next_mem_fid == largest + 1,
                largest == 0 || exists|k: int|
                    0 <= k < given.len() && (#[trigger] given[k]).0 == largest,
                forall|k: int| 0 <= k < given.len() ==> (#[trigger] given[k]).0 <= largest,
                deque@.len() + mts@.len() == all.len(),
                mts@ == all.take(mts@.len() as int),
                deque@ == all.skip(mts@.len() as int),
            decreases mts@.len(),
        {
            let ghost n = mts@.len() as int;
            match mts.pop() {
                Some(table) => {
                    deque.push_front(table);
                    assert(deque@ =~= all.skip(n - 1));
                    assert(mts@ =~= all.take(n - 1));
                },
                None => {},
            }
        }
        assert(deque@ =~= all);
        Ok((deque, next_mem_fid))
    }

    /// All memtables in the order of their age, the oldest first.
    pub fn view(&self) -> (view: Vec<&MemTable>)
        ensures
            view@.len() == self.all().len(),
            forall|i: int| 0 <= i < view@.len() ==> *(#[trigger] view@[i]) == self.all()[i],
    {
        let mut view: Vec<&MemTable> = Vec::new();
        let mut i: usize = 0;
        while i < self.imm_memtables.len()
            invariant
                i <= self.imm_memtables@.len(),
                view@.len() == i,
                forall|k: int| 0 <= k < i ==> *(#[trigger] view@[k]) == self.imm_memtables@[k],
            decreases self.imm_memtables@.len() - i,
        {
            view.push(&self.imm_memtables[i]);
            i += 1;
        }
        view.push(&self.memtable);
        view
    }

    /// Lets a new memtable take the writes; the one that took them so far
    /// becomes the newest of those that wait to be flushed. Fails with
    /// `Overflow` where the numbers are exhausted; then nothing has
    /// changed.
    pub fn use_new_table(&mut self) -> (r: Result<(), LsmError>)
        requires
            old(self).wf(),
        ensures
            final(self).wf(),
            final(self).options() == old(self).options(),
            match r {
                Ok(()) => {
                    &&& final(self).immutables().len() == old(self).immutables().len() + 1
                    &&& forall|i: int|
                        0 <= i < old(self).immutables().len()
                            ==> #[trigger] final(self).immutables()[i] == old(self).immutables()[i]
                    &&& final(self).immutables().last().entries() == old(self).active().entries()
                    &&& final(self).immutables().last().id() == old(self).active().id()
                    &&& final(self).unwritten() == old(self).unwritten().push(
                        (old(self).active().id(), old(self).active().wal().pending()),
                    )
                    &&& final(self).active().entries() == no_entries()
                    &&& final(self).active().wal().is_writer()
                    &&& final(self).active().wal().sequence() == 0
                    &&& final(self).active().id() == old(self).next_id()
                    &&& final(self).next_id() == old(self).next_id() + 1
                },
                Err(e) => e == LsmError::Overflow && *final(self) == *old(self),
            },
            old(self).next_id() < usize::MAX ==> r is Ok,
            forall|key: Seq<u8>| #[trigger] final(self).value_of(key) == old(self).value_of(key),
    {
        if self.next_mem_id == usize::MAX {
            return Err(LsmError::Overflow);
        }
        let mut table = MemTable::create(self.next_mem_id);
        self.next_mem_id += 1;
        std::mem::swap(&mut self.memtable, &mut table);
        let records = table.take_wal_records();
        let ghost before = self.unwritten();
        self.unwritten.push((table.id(), records));
        self.imm_memtables.push_back(table);
        proof {
            assert(self.unwritten() =~= before.push(
                (old(self).active().id(), old(self).active().wal().pending()),
            ));
            assert forall|i: int| 0 <= i < self.immutables().len() implies (
            #[trigger] self.immutables()[i]).wf() && self.immutables()[i].id() < self.next_id() by {
                if i < old(self).immutables().len() {
                    assert(self.immutables()[i] == old(self).immutables()[i]);
                }
            }
            let before = old(self).all();
            let after = self.all();
            let n = before.len() as int;
            assert forall|key: Seq<u8>| #[trigger] self.value_of(key) == old(self).value_of(key) by {
                assert(after[n] == self.active());
                assert forall|i: int| 0 <= i < n implies (#[trigger] after[i]).entries()
                    == before[i].entries() by {
                    assert(after[i] == self.immutables()[i]);
                    if i < n - 1 {
                        assert(self.immutables()[i] == old(self).immutables()[i]);
                        assert(before[i] == old(self).immutables()[i]);
                    } else {
                        assert(before[i] == old(self).active());
                        assert(self.immutables()[i] == self.immutables().last());
                    }
                }
                lemma_mem_value_prefix(after, before, key, n);
            }
        }
        Ok(())
    }

    /// Writes an entry to the memtable that takes the writes; see
    /// `MemTable::put`.
    pub fn put(&mut self, key: &[u8], value: &[u8]) -> (r: Result<(), LsmError>)
        requires
            old(self).wf(),
        ensures
            final(self).wf(),
            final(self).options() == old(self).options(),
            final(self).immutables() == old(self).immutables(),
            final(self).next_id() == old(self).next_id(),
            final(self).active().id() == old(self).active().id(),
            final(self).active().wal().is_writer() == old(self).active().wal().is_writer(),
            r is Err ==> *final(self) == *old(self),
            r is Ok ==> final(self).wf() && final(self).active().wal().sequence()
                == old(self).active().wal().sequence() + 1,
            match r {
                Ok(()) => {
                    &&& final(self).active().entries() == old(self).active().entries().insert(
                        key@,
                        (value@, final(self).active().wal().sequence()),
                    )
                    &&& final(self).active().wal().log() == old(self).active().wal().log()
                        + crate::block::encoded_entry(key@, value@)
                },
                Err(e) => {
                    &&& final(self).active().entries() == old(self).active().entries()
                    &&& final(self).active().wal().log() == old(self).active().wal().log()
                },
            },
            error_of(r) == write_error(
                seq![(key@, value@)],
                old(self).active().wal().is_writer(),
                old(self).active().wal().sequence(),
            ),
            old(self).active().wal().is_writer() && 0 < key@.len() <= 0xFFFF && value@.len()
                <= 0xFFFF && old(self).active().wal().sequence() < u64::MAX ==> r is Ok,
    {
        let r = self.memtable.put(key, value);
        assert(self.imm_memtables == old(self).imm_memtables);
        assert(self.next_mem_id == old(self).next_mem_id);
        assert(self.immutables() == old(self).immutables());
        r
    }

    /// Writes a batch of entries to the memtable that takes the writes;
    /// see `MemTable::put_entries`.
    pub fn put_entries(&mut self, entries: &[(Vec<u8>, Vec<u8>)]) -> (r: Result<(), LsmError>)
        requires
            old(self).wf(),
        ensures
            final(self).wf(),
            final(self).options() == old(self).options(),
            final(self).immutables() == old(self).immutables(),
            final(self).next_id() == old(self).next_id(),
            final(self).active().id() == old(self).active().id(),
            final(self).active().wal().is_writer() == old(self).active().wal().is_writer(),
            r is Err ==> *final(self) == *old(self),
            r is Ok ==> final(self).wf() && final(self).active().wal().sequence()
                == old(self).active().wal().sequence() + 1,
            match r {
                Ok(()) => {
                    &&& final(self).active().wal().log() == old(self).active().wal().log()
                        + crate::wal::wal_records(Wal::entries_view(entries@))
                    &&& final(self).active().entries() == MemTable::batch_onto(
                        Wal::entries_view(entries@),
                        0,
                        old(self).active().entries(),
                        final(self).active().wal().sequence(),
                    )
                    &&& forall|key: Seq<u8>| #[trigger]
                        final(self).value_of(key) == match batch_first(
                            Wal::entries_view(entries@),
                            key,
                            0,
                        ) {
                            Some(value) => Some(value),
                            None => old(self).value_of(key),
                        }
                },
                Err(e) => {
                    &&& final(self).active().entries() == old(self).active().entries()
                    &&& forall|key: Seq<u8>| #[trigger]
                        final(self).value_of(key) == old(self).value_of(key)
                },
            },
            error_of(r) == write_error(
                Wal::entries_view(entries@),
                old(self).active().wal().is_writer(),
                old(self).active().wal().sequence(),
            ),
    {
        let ghost version = (self.memtable.wal().sequence() + 1) as u64;
        let r = self.memtable.put_entries(entries);
        assert(self.imm_memtables == old(self).imm_memtables);
        assert(self.next_mem_id == old(self).next_mem_id);
        assert(self.immutables() == old(self).immutables());
        proof {
            let before = old(self).all();
            let after = self.all();
            let n = before.len() as int;
            assert(after[n - 1] == self.active() && before[n - 1] == old(self).active());
            let batch = Wal::entries_view(entries@);
            let map = old(self).active().entries();
            assert forall|key: Seq<u8>| #[trigger]
                self.value_of(key) == (if r is Ok {
                    match batch_first(batch, key, 0) {
                        Some(value) => Some(value),
                        None => old(self).value_of(key),
                    }
                } else {
                    old(self).value_of(key)
                }) by {
                assert forall|i: int| 0 <= i < n - 1 implies (#[trigger] before[i]).entries()
                    == after[i].entries() by {
                    assert(before[i] == old(self).immutables()[i]);
                    assert(after[i] == self.immutables()[i]);
                }
                lemma_mem_value_prefix(before, after, key, n - 1);
                if r is Ok {
                    assert(self.active().wal().sequence() == version);
                    lemma_batch_onto(batch, 0, map, version, key);
                    if map.contains_key(key) {
                        assert(map[key].1 < version);
                    }
                }
            }
        }
        r
    }

    /// Whether the numbers of the memtables are exhausted: no new memtable
    /// can take the writes.
    pub fn exhausted(&self) -> (yes: bool)
        ensures
            yes == (self.next_id() == usize::MAX),
    {
        self.next_mem_id == usize::MAX
    }

    /// The size of the memtable that takes the writes.
    pub fn active_size(&self) -> (n: usize)
        ensures
            n == self.active().spec_size(),
    {
        self.memtable.size()
    }

    /// The number of memtables that wait to be flushed.
    pub fn imm_len(&self) -> (n: usize)
        ensures
            n == self.immutables().len(),
    {
        self.imm_memtables.len()
    }

    /// The memtable number `i` of those that wait to be flushed.
    pub fn immutable(&self, i: usize) -> (table: &MemTable)
        requires
            i < self.immutables().len(),
        ensures
            *table == self.immutables()[i as int],
    {
        &self.imm_memtables[i]
    }

    /// The memtable that takes the writes.
    pub fn memtable(&self) -> (table: &MemTable)
        ensures
            *table == self.active(),
    {
        &self.memtable
    }

    /// Hands out the records of the logs that are to be written to their
    /// files, each with the number of its memtable: those of memtables that
    /// were rotated since the last time, then those of the memtable that
    /// takes the writes.
    pub fn take_wal_records(&mut self) -> (records: Vec<(usize, Vec<u8>)>)
        requires
            old(self).wf(),
        ensures
            final(self).wf(),
            records@.len() == old(self).unwritten().len() + 1,
            forall|i: int|
                0 <= i < old(self).unwritten().len() ==> ((#[trigger] records@[i]).0, records@[i].1@)
                    == old(self).unwritten()[i],
            records@.last().0 == old(self).active().id(),
            records@.last().1@ == old(self).active().wal().pending(),
            final(self).unwritten().len() == 0,
            final(self).active().wal().pending().len() == 0,
            final(self).active().entries() == old(self).active().entries(),
            final(self).active().wal().log() == old(self).active().wal().log(),
            final(self).active().wal().sequence() == old(self).active().wal().sequence(),
            final(self).active().wal().is_writer() == old(self).active().wal().is_writer(),
            final(self).active().id() == old(self).active().id(),
            final(self).immutables() == old(self).immutables(),
            final(self).next_id() == old(self).next_id(),
            final(self).options() == old(self).options(),
    {
        let mut records: Vec<(usize, Vec<u8>)> = Vec::new();
        std::mem::swap(&mut records, &mut self.unwritten);
        let id = self.memtable.id();
        let bytes = self.memtable.take_wal_records();
        assert(self.imm_memtables == old(self).imm_memtables);
        assert(self.next_mem_id == old(self).next_mem_id);
        assert(self.immutables() == old(self).immutables());
        records.push((id, bytes));
        records
    }

    /// Drops the `n` oldest of the memtables that wait to be flushed, and
    /// gives their numbers.
    pub fn drop_oldest(&mut self, n: usize) -> (ids: Vec<usize>)
        requires
            old(self).wf(),
            n <= old(self).immutables().len(),
        ensures
            final(self).wf(),
            final(self).active() == old(self).active(),
            final(self).next_id() == old(self).next_id(),
            final(self).options() == old(self).options(),
            final(self).immutables() == old(self).immutables().skip(n as int),
            final(self).unwritten() == old(self).unwritten(),
            ids@.len() == n,
            forall|i: int| 0 <= i < n ==> #[trigger] ids@[i] == old(self).immutables()[i].id(),
    {
        let mut ids: Vec<usize> = Vec::with_capacity(n);
        let mut i: usize = 0;
        assert(self.immutables() =~= old(self).immutables().skip(0));
        while i < n
            invariant
                i <= n <= old(self).immutables().len(),
                self.memtable == old(self).memtable,
                self.next_mem_id == old(self).next_mem_id,
                self.opt == old(self).opt,
                self.unwritten == old(self).unwritten,
                self.imm_memtables@ == old(self).imm_memtables@.skip(i as int),
                ids@.len() == i,
                forall|k: int| 0 <= k < i ==> #[trigger] ids@[k] == old(self).immutables()[k].id(),
            decreases n - i,
        {
            match self.imm_memtables.pop_front() {
                Some(table) => {
                    ids.push(table.id());
                },
                None => {},
            }
            assert(self.imm_memtables@ =~= old(self).imm_memtables@.skip(i + 1));
            i += 1;
        }
        proof {
            assert forall|k: int| 0 <= k < self.immutables().len() implies (
            #[trigger] self.immutables()[k]).wf() && self.immutables()[k].id() < self.next_id() by {
                assert(self.immutables()[k] == old(self).immutables()[k + n]);
            }
        }
        ids
    }
}

} // verus!
