//! The write-ahead log of a memtable.
//!
//! The log is the records of the entries that were written, one after the
//! other, each as `| u16 klen | key | u16 vlen | value |`. A log that was
//! created takes appends; a log that was opened is replayed.

pub mod iterator;

use crate::block::builder::Entry;
use crate::block::encoded_entry;
use crate::endian::{lemma_u16_round_trip, put_slice, u16_at, u16_be};
use crate::error::LsmError;
use iterator::WalIterator;
use vstd::prelude::*;

verus! {

/// The records of a sequence of entries, one after the other.
pub open spec fn wal_records(entries: Seq<(Seq<u8>, Seq<u8>)>) -> Seq<u8>
    decreases entries.len(),
{
    if entries.len() == 0 {
        Seq::empty()
    } else {
        encoded_entry(entries[0].0, entries[0].1) + wal_records(entries.skip(1))
    }
}

/// A whole record with a key starts at `at`.
pub open spec fn record_at(data: Seq<u8>, at: int) -> bool {
    &&& 0 <= at
    &&& at + 2 <= data.len()
    &&& u16_at(data, at) > 0
    &&& at + 2 + u16_at(data, at) + 2 <= data.len()
    &&& record_end(data, at) <= data.len()
}

/// The position behind the record that starts at `at`.
pub open spec fn record_end(data: Seq<u8>, at: int) -> int {
    at + 4 + u16_at(data, at) + u16_at(data, at + 2 + u16_at(data, at))
}

/// The entries that a replay of the log from `at` on gives: those of the
/// whole records with a key, up to the first place where no such record
/// starts, be it the end of the log or a torn record.
pub open spec fn wal_replayed(data: Seq<u8>, at: int) -> Seq<(Seq<u8>, Seq<u8>)>
    decreases data.len() - at,
{
    if !record_at(data, at) {
        Seq::empty()
    } else {
        seq![
            (
                data.subrange(at + 2, at + 2 + u16_at(data, at)),
                data.subrange(at + 4 + u16_at(data, at), record_end(data, at)),
            ),
        ] + wal_replayed(data, record_end(data, at))
    }
}

/// The parts of every entry fit the fields that store their lengths.
pub open spec fn storable(entries: Seq<(Seq<u8>, Seq<u8>)>) -> bool {
    forall|i: int|
        0 <= i < entries.len() ==> (#[trigger] entries[i]).0.len() <= 0xFFFF
            && entries[i].1.len() <= 0xFFFF
}

/// Why an append fails, if it does: with `Overflow` where a part of an
/// entry does not fit its field, else with `WalReadOnly` on a log that is
/// read, else with `Overflow` where the count of appends is exhausted.
pub open spec fn append_error(fits: bool, is_writer: bool, sequence: u64) -> Option<LsmError> {
    if !fits {
        Some(LsmError::Overflow)
    } else if !is_writer {
        Some(LsmError::WalReadOnly)
    } else if sequence == u64::MAX {
        Some(LsmError::Overflow)
    } else {
        None
    }
}

/// Every entry has a key, and its parts fit the fields that store their
/// lengths.
pub open spec fn loggable(entries: Seq<(Seq<u8>, Seq<u8>)>) -> bool {
    forall|i: int|
        0 <= i < entries.len() ==> 0 < (#[trigger] entries[i]).0.len() <= 0xFFFF
            && entries[i].1.len() <= 0xFFFF
}

/// The records of entries with one more entry are the records of the
/// entries, then the record of the new one.
pub proof fn lemma_wal_records_push(entries: Seq<(Seq<u8>, Seq<u8>)>, entry: (Seq<u8>, Seq<u8>))
    ensures
        wal_records(entries.push(entry)) == wal_records(entries) + encoded_entry(entry.0, entry.1),
    decreases entries.len(),
{
    reveal_with_fuel(wal_records, 2);
    if entries.len() == 0 {
        assert(entries.push(entry).skip(1) =~= Seq::empty());
        assert(wal_records(entries.push(entry)) =~= encoded_entry(entry.0, entry.1));
        assert(wal_records(entries) + encoded_entry(entry.0, entry.1) =~= encoded_entry(
            entry.0,
            entry.1,
        ));
    } else {
        lemma_wal_records_push(entries.skip(1), entry);
        assert(entries.push(entry).skip(1) =~= entries.skip(1).push(entry));
        assert(wal_records(entries.push(entry)) =~= encoded_entry(entries[0].0, entries[0].1) + (
        wal_records(entries.skip(1)) + encoded_entry(entry.0, entry.1)));
    }
}

/// The records of two sequences of entries, one behind the other, are the
/// records of the first, then those of the second.
pub proof fn lemma_wal_records_concat(a: Seq<(Seq<u8>, Seq<u8>)>, b: Seq<(Seq<u8>, Seq<u8>)>)
    ensures
        wal_records(a + b) == wal_records(a) + wal_records(b),
    decreases b.len(),
{
    if b.len() == 0 {
        assert(a + b =~= a);
        assert(wal_records(a) + wal_records(b) =~= wal_records(a));
    } else {
        lemma_wal_records_concat(a, b.drop_last());
        lemma_wal_records_push(a + b.drop_last(), b.last());
        lemma_wal_records_push(b.drop_last(), b.last());
        assert((a + b.drop_last()).push(b.last()) =~= a + b);
        assert(b.drop_last().push(b.last()) =~= b);
        assert(wal_records(a + b) =~= wal_records(a) + (wal_records(b.drop_last())
            + encoded_entry(b.last().0, b.last().1)));
    }
}

/// Where the record of an entry stands in `data` from `at` on, a whole
/// record starts there, and it reads as the entry.
pub proof fn lemma_record_at(data: Seq<u8>, at: int, key: Seq<u8>, value: Seq<u8>)
    requires
        0 <= at,
        0 < key.len() <= 0xFFFF,
        value.len() <= 0xFFFF,
        at + 4 + key.len() + value.len() <= data.len(),
        data.subrange(at, at + 4 + key.len() + value.len()) == encoded_entry(key, value),
    ensures
        record_at(data, at),
        record_end(data, at) == at + 4 + key.len() + value.len(),
        data.subrange(at + 2, at + 2 + u16_at(data, at)) == key,
        data.subrange(at + 4 + u16_at(data, at), record_end(data, at)) == value,
{
    let e = encoded_entry(key, value);
    let kl = key.len() as int;
    let vl = value.len() as int;
    let sub = data.subrange(at, at + 4 + kl + vl);
    lemma_u16_round_trip(Seq::empty(), kl as u16, key + u16_be(vl as u16) + value);
    assert(e =~= Seq::empty() + u16_be(kl as u16) + (key + u16_be(vl as u16) + value));
    lemma_u16_round_trip(u16_be(kl as u16) + key, vl as u16, value);
    assert(e =~= (u16_be(kl as u16) + key) + u16_be(vl as u16) + value);
    assert(data[at] == sub[0] && data[at + 1] == sub[1]);
    assert(u16_at(data, at) == kl);
    assert(data[at + 2 + kl] == sub[2 + kl] && data[at + 2 + kl + 1] == sub[2 + kl + 1]);
    assert(u16_at(data, at + 2 + kl) == vl);
    assert(data.subrange(at + 2, at + 2 + kl) =~= sub.subrange(2, 2 + kl));
    assert(e.subrange(2, 2 + kl) =~= key);
    assert(data.subrange(at + 4 + kl, at + 4 + kl + vl) =~= sub.subrange(4 + kl, 4 + kl + vl));
    assert(e.subrange(4 + kl, 4 + kl + vl) =~= value);
}

/// A log replays to the entries that were written to it, whatever stands
/// behind their records, as long as no whole record starts there: a torn
/// record at the end is dropped.
#[verifier::spinoff_prover]
#[verifier::rlimit(50)]
pub proof fn lemma_wal_round_trip(pre: Seq<u8>, entries: Seq<(Seq<u8>, Seq<u8>)>, tail: Seq<u8>)
    requires
        loggable(entries),
        !record_at(tail, 0),
    ensures
        wal_replayed(pre + wal_records(entries) + tail, pre.len() as int) == entries,
    decreases entries.len(),
{
    let data = pre + wal_records(entries) + tail;
    let at = pre.len() as int;
    if entries.len() == 0 {
        assert(data =~= pre + tail);
        assert(!record_at(data, at)) by {
            if at + 2 <= data.len() {
                assert(data[at] == tail[0] && data[at + 1] == tail[1]);
                let kl = u16_at(tail, 0) as int;
                if at + 2 + kl + 2 <= data.len() {
                    assert(data[at + 2 + kl] == tail[2 + kl] && data[at + 2 + kl + 1] == tail[2
                        + kl + 1]);
                }
            }
        }
        assert(entries =~= Seq::empty());
    } else {
        let first = entries[0];
        let rest = entries.skip(1);
        let rec = encoded_entry(first.0, first.1);
        assert(loggable(rest)) by {
            assert forall|i: int| 0 <= i < rest.len() implies 0 < (#[trigger] rest[i]).0.len()
                <= 0xFFFF && rest[i].1.len() <= 0xFFFF by {
                assert(rest[i] == entries[i + 1]);
            }
        }
        assert(rec.len() == 4 + first.0.len() + first.1.len());
        assert(data.subrange(at, at + rec.len()) =~= rec);
        lemma_record_at(data, at, first.0, first.1);
        lemma_wal_round_trip(pre + rec, rest, tail);
        assert(data =~= (pre + rec) + wal_records(rest) + tail);
        assert(seq![first] + rest =~= entries);
    }
}

/// A strict prefix of the record of an entry holds no whole record.
pub proof fn lemma_torn_record(key: Seq<u8>, value: Seq<u8>, len: int)
    requires
        0 < key.len() <= 0xFFFF,
        value.len() <= 0xFFFF,
        0 <= len < encoded_entry(key, value).len(),
    ensures
        !record_at(encoded_entry(key, value).subrange(0, len), 0),
{
    let e = encoded_entry(key, value);
    let torn = e.subrange(0, len);
    let kl = key.len() as int;
    let vl = value.len() as int;
    assert(e.subrange(0, 4 + kl + vl) =~= e);
    lemma_record_at(e, 0, key, value);
    if len >= 2 {
        assert(torn[0] == e[0] && torn[1] == e[1]);
        assert(u16_at(torn, 0) == kl);
        if len >= 2 + kl + 2 {
            assert(torn[2 + kl] == e[2 + kl] && torn[2 + kl + 1] == e[2 + kl + 1]);
            assert(u16_at(torn, 2 + kl) == vl);
        }
    }
}

/// The two ways in which a log is held.
enum WalInner {
    /// The records that are not yet on disk, and the number of appends.
    WalWriter { pending: Vec<u8>, id: u64 },
    /// The bytes of the file.
    WalReader { data: Vec<u8> },
}

/// A write-ahead log.
pub struct Wal {
    inner: WalInner,
    log: Ghost<Seq<u8>>,
}

impl Wal {
    /// Whether the log takes appends.
    pub closed spec fn is_writer(&self) -> bool {
        self.inner is WalWriter
    }

    /// All the bytes of the log: for a log that is read, those of the file;
    /// for one that is written, those of the records appended so far.
    pub closed spec fn log(&self) -> Seq<u8> {
        self.log@
    }

    /// The bytes that were appended and not yet taken to be written: the
    /// end of the log.
    pub closed spec fn pending(&self) -> Seq<u8> {
        match self.inner {
            WalInner::WalWriter { pending, .. } => pending@,
            WalInner::WalReader { .. } => Seq::empty(),
        }
    }

    /// The number of appends so far.
    pub closed spec fn sequence(&self) -> u64 {
        match self.inner {
            WalInner::WalWriter { id, .. } => id,
            WalInner::WalReader { .. } => 0,
        }
    }

    /// What holds of every log: what is pending is the end of the log, and
    /// a log that is read is the bytes of its file.
    pub closed spec fn wf(&self) -> bool {
        match self.inner {
            WalInner::WalWriter { pending, .. } => pending@.len() <= self.log@.len() && pending@
                == self.log@.subrange(self.log@.len() - pending@.len(), self.log@.len() as int),
            WalInner::WalReader { data } => data@ == self.log@,
        }
    }

    /// The log of a file with the bytes `data`, to be replayed.
    pub fn open(data: Vec<u8>) -> (wal: Self)
        ensures
            wal.wf(),
            !wal.is_writer(),
            wal.log() == data@,
    {
        Wal { log: Ghost(data@), inner: WalInner::WalReader { data } }
    }

    /// A new log, to be written.
    pub fn create() -> (wal: Self)
        ensures
            wal.wf(),
            wal.is_writer(),
            wal.log() == Seq::<u8>::empty(),
            wal.pending() == Seq::<u8>::empty(),
            wal.sequence() == 0,
    {
        let wal = Wal {
            log: Ghost(Seq::empty()),
            inner: WalInner::WalWriter { pending: Vec::new(), id: 0 },
        };
        assert(wal.pending() =~= wal.log@.subrange(0, 0));
        wal
    }

    /// Appends bytes and gives the number of this append, counted from
    /// one. Fails with `WalReadOnly` on a log that is read and with
    /// `Overflow` where the count is exhausted; then nothing has changed.
    fn append(&mut self, buf: &[u8]) -> (r: Result<u64, LsmError>)
        requires
            old(self).wf(),
        ensures
            final(self).wf(),
            final(self).is_writer() == old(self).is_writer(),
            r is Err ==> *final(self) == *old(self),
            match r {
                Ok(seq) => {
                    &&& old(self).is_writer()
                    &&& seq == old(self).sequence() + 1
                    &&& final(self).sequence() == seq
                    &&& final(self).log() == old(self).log() + buf@
                    &&& final(self).pending() == old(self).pending() + buf@
                },
                Err(e) => {
                    &&& e == if old(self).is_writer() {
                        LsmError::Overflow
                    } else {
                        LsmError::WalReadOnly
                    }
                    &&& old(self).is_writer() ==> old(self).sequence() == u64::MAX
                    &&& final(self).log() == old(self).log()
                    &&& final(self).pending() == old(self).pending()
                    &&& final(self).sequence() == old(self).sequence()
                },
            },
    {
        let ghost old_log = self.log@;
        match &mut self.inner {
            WalInner::WalWriter { pending, id } => {
                if *id == u64::MAX {
                    return Err(LsmError::Overflow);
                }
                let ghost old_pending = pending@;
                put_slice(pending, buf);
                *id = *id + 1;
                let seq = *id;
                proof {
                    self.log@ = old_log + buf@;
                    assert(old_pending + buf@ =~= (old_log + buf@).subrange(
                        (old_log + buf@).len() - (old_pending + buf@).len(),
                        (old_log + buf@).len() as int,
                    ));
                }
                Ok(seq)
            },
            WalInner::WalReader { .. } => Err(LsmError::WalReadOnly),
        }
    }

    /// Logs one entry and gives the number of this append.
    ///
    /// Fails with `Overflow` where the key or the value is longer than 16
    /// bits count or the count of appends is exhausted, and with
    /// `WalReadOnly` on a log that is read; then nothing has changed.
    pub fn add(&mut self, key: &[u8], value: &[u8]) -> (r: Result<u64, LsmError>)
        requires
            old(self).wf(),
        ensures
            final(self).wf(),
            final(self).is_writer() == old(self).is_writer(),
            r is Err ==> *final(self) == *old(self),
            match r {
                Ok(seq) => {
                    &&& old(self).is_writer()
                    &&& key@.len() <= 0xFFFF && value@.len() <= 0xFFFF
                    &&& seq == old(self).sequence() + 1
                    &&& final(self).sequence() == seq
                    &&& final(self).log() == old(self).log() + encoded_entry(key@, value@)
                    &&& final(self).pending() == old(self).pending() + encoded_entry(key@, value@)
                },
                Err(e) => {
                    &&& final(self).log() == old(self).log()
                    &&& final(self).pending() == old(self).pending()
                    &&& final(self).sequence() == old(self).sequence()
                },
            },
            append_error(
                key@.len() <= 0xFFFF && value@.len() <= 0xFFFF,
                old(self).is_writer(),
                old(self).sequence(),
            ) == match r {
                Ok(_) => None,
                Err(e) => Some(e),
            },
    {
        if key.len() > 0xFFFF || value.len() > 0xFFFF {
            return Err(LsmError::Overflow);
        }
        let entry = Entry::new(key, value);
        let buf = entry.encode();
        self.append(buf.as_slice())
    }

    /// The entries as pairs of byte strings.
    pub open spec fn entries_view(entries: Seq<(Vec<u8>, Vec<u8>)>) -> Seq<(Seq<u8>, Seq<u8>)> {
        Seq::new(entries.len(), |i: int| (entries[i].0@, entries[i].1@))
    }

    /// Logs a batch of entries in one append and gives its number.
    ///
    /// Fails as `add` does, for any entry of the batch; then nothing has
    /// changed.
    pub fn add_entries(&mut self, entries: &[(Vec<u8>, Vec<u8>)]) -> (r: Result<u64, LsmError>)
        requires
            old(self).wf(),
        ensures
            final(self).wf(),
            final(self).is_writer() == old(self).is_writer(),
            r is Err ==> *final(self) == *old(self),
            match r {
                Ok(seq) => {
                    &&& old(self).is_writer()
                    &&& forall|i: int|
                        0 <= i < entries@.len() ==> (#[trigger] entries@[i]).0@.len() <= 0xFFFF
                            && entries@[i].1@.len() <= 0xFFFF
                    &&& seq == old(self).sequence() + 1
                    &&& final(self).sequence() == seq
                    &&& final(self).log() == old(self).log() + wal_records(
                        Self::entries_view(entries@),
                    )
                    &&& final(self).pending() == old(self).pending() + wal_records(
                        Self::entries_view(entries@),
                    )
                },
                Err(e) => {
                    &&& final(self).log() == old(self).log()
                    &&& final(self).pending() == old(self).pending()
                    &&& final(self).sequence() == old(self).sequence()
                },
            },
            append_error(
                storable(Self::entries_view(entries@)),
                old(self).is_writer(),
                old(self).sequence(),
            ) == match r {
                Ok(_) => None,
                Err(e) => Some(e),
            },
    {
        let ghost all = Self::entries_view(entries@);
        let mut buf: Vec<u8> = Vec::new();
        let mut i: usize = 0;
        assert(all.take(0) =~= Seq::empty());
        while i < entries.len()
            invariant
                i <= entries@.len(),
                all == Self::entries_view(entries@),
                buf@ == wal_records(all.take(i as int)),
                forall|j: int|
                    0 <= j < i ==> (#[trigger] entries@[j]).0@.len() <= 0xFFFF
                        && entries@[j].1@.len() <= 0xFFFF,
                *self == *old(self),
                self.wf(),
            decreases entries@.len() - i,
        {
            let key = entries[i].0.as_slice();
            let value = entries[i].1.as_slice();
            if key.len() > 0xFFFF || value.len() > 0xFFFF {
                assert(all[i as int] == (key@, value@));
                return Err(LsmError::Overflow);
            }
            let bytes = Entry::new(key, value).encode();
            put_slice(&mut buf, bytes.as_slice());
            proof {
                lemma_wal_records_push(all.take(i as int), all[i as int]);
                assert(all.take(i as int).push(all[i as int]) =~= all.take(i + 1));
            }
            i += 1;
        }
        assert(all.take(entries@.len() as int) =~= all);
        assert(storable(all)) by {
            assert forall|j: int| 0 <= j < all.len() implies (#[trigger] all[j]).0.len() <= 0xFFFF
                && all[j].1.len() <= 0xFFFF by {
                assert(entries@[j].0@.len() <= 0xFFFF);
            }
        }
        self.append(buf.as_slice())
    }

    /// An iterator over the entries of a log that is read; fails with
    /// `WalWriteOnly` on a log that is written.
    pub fn iter(&self) -> (r: Result<WalIterator, LsmError>)
        requires
            self.wf(),
        ensures
            match r {
                Ok(iter) => !self.is_writer() && iter.wf() && iter.data() == self.log()
                    && iter.remaining() == wal_replayed(self.log(), 0),
                Err(e) => self.is_writer() && e == LsmError::WalWriteOnly,
            },
    {
        match &self.inner {
            WalInner::WalReader { data } => Ok(WalIterator::create(data.as_slice())),
            WalInner::WalWriter { .. } => Err(LsmError::WalWriteOnly),
        }
    }

    /// Hands out the bytes that are to be written to the file, and keeps
    /// none of them.
    pub fn take_pending(&mut self) -> (bytes: Vec<u8>)
        requires
            old(self).wf(),
        ensures
            final(self).wf(),
            bytes@ == old(self).pending(),
            final(self).pending().len() == 0,
            final(self).log() == old(self).log(),
            final(self).sequence() == old(self).sequence(),
            final(self).is_writer() == old(self).is_writer(),
    {
        let mut bytes: Vec<u8> = Vec::new();
        match &mut self.inner {
            WalInner::WalWriter { pending, .. } => {
                std::mem::swap(&mut bytes, pending);
            },
            WalInner::WalReader { .. } => {},
        }
        proof {
            assert(Seq::<u8>::empty() =~= self.log@.subrange(
                self.log@.len() as int,
                self.log@.len() as int,
            ));
        }
        bytes
    }
}

} // verus!
