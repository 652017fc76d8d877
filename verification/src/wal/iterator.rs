//! Replaying a write-ahead log.

use super::{record_at, record_end, wal_replayed};
use crate::endian::{copy_range, get_u16, u16_at};
use vstd::prelude::*;

verus! {

/// A position in a log, with a copy of the entry before it.
pub struct WalIterator {
    data: Vec<u8>,
    pos: usize,
    key: Vec<u8>,
    value: Vec<u8>,
}

impl WalIterator {
    /// The bytes of the log.
    pub closed spec fn data(&self) -> Seq<u8> {
        self.data@
    }

    /// The position behind the current entry.
    pub closed spec fn position(&self) -> int {
        self.pos as int
    }

    /// The current key; empty once the replay is over.
    pub closed spec fn current_key(&self) -> Seq<u8> {
        self.key@
    }

    /// The current value.
    pub closed spec fn current_value(&self) -> Seq<u8> {
        self.value@
    }

    /// What holds of every iterator: its position is in the log.
    pub open spec fn wf(&self) -> bool {
        0 <= self.position() <= self.data().len()
    }

    /// The entries that the iterator has yet to give, the current one
    /// first.
    pub open spec fn remaining(&self) -> Seq<(Seq<u8>, Seq<u8>)> {
        if self.current_key().len() == 0 {
            Seq::empty()
        } else {
            seq![(self.current_key(), self.current_value())] + wal_replayed(
                self.data(),
                self.position(),
            )
        }
    }

    /// An iterator on the first entry of the log `buf`.
    pub fn create(buf: &[u8]) -> (iter: Self)
        ensures
            iter.wf(),
            iter.data() == buf@,
            iter.remaining() == wal_replayed(buf@, 0),
    {
        let mut iter = WalIterator {
            data: vstd::slice::slice_to_vec(buf),
            pos: 0,
            key: Vec::new(),
            value: Vec::new(),
        };
        iter.advance();
        iter
    }

    /// The key of the current entry; empty once the replay is over.
    pub fn key(&self) -> (key: &[u8])
        ensures
            key@ == self.current_key(),
            self.remaining().len() > 0 ==> key@ == self.remaining()[0].0,
    {
        self.key.as_slice()
    }

    /// The value of the current entry.
    pub fn value(&self) -> (value: &[u8])
        ensures
            value@ == self.current_value(),
            self.remaining().len() > 0 ==> value@ == self.remaining()[0].1,
    {
        self.value.as_slice()
    }

    /// Whether the iterator stands on an entry.
    pub fn is_valid(&self) -> (valid: bool)
        ensures
            valid == (self.remaining().len() > 0),
    {
        !self.key.is_empty()
    }

    /// Reads the record at the position; where no whole record with a key
    /// starts there, the replay is over and what is left is dropped.
    fn advance(&mut self)
        requires
            old(self).wf(),
        ensures
            final(self).wf(),
            final(self).data() == old(self).data(),
            final(self).remaining() == wal_replayed(old(self).data(), old(self).position()),
    {
        let n = self.data.len();
        let at = self.pos;
        self.key.clear();
        self.value.clear();
        if n - at < 2 {
            self.pos = n;
            return ;
        }
        let klen = get_u16(self.data.as_slice(), at) as usize;
        if klen == 0 || n - at - 2 < klen + 2 {
            self.pos = n;
            return ;
        }
        let vlen = get_u16(self.data.as_slice(), at + 2 + klen) as usize;
        if n - at - 4 - klen < vlen {
            self.pos = n;
            return ;
        }
        self.key = copy_range(self.data.as_slice(), at + 2, at + 2 + klen);
        self.value = copy_range(self.data.as_slice(), at + 4 + klen, at + 4 + klen + vlen);
        self.pos = at + 4 + klen + vlen;
    }

    /// Goes to the next entry; once the replay is over it stays over.
    pub fn next(&mut self)
        requires
            old(self).wf(),
        ensures
            final(self).wf(),
            final(self).data() == old(self).data(),
            final(self).remaining() == crate::key::rest_of(old(self).remaining()),
    {
        if self.key.is_empty() {
            return ;
        }
        let ghost before = self.remaining();
        self.advance();
        assert(self.remaining() =~= before.skip(1));
    }
}

} // verus!
