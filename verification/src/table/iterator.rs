//! Walking a table block by block.

use super::SsTable;
use crate::block::iterator::BlockIterator;
use crate::block::{block_decoded, BlockView};
use crate::error::LsmError;
use crate::iterators::StorageIterator;
use crate::key::{entries_sorted, is_lower_bound, rest_of, seeked};
use std::sync::Arc;
use vstd::prelude::*;

verus! {

/// A position in a table: a block of it and a position in that block.
#[derive(Debug)]
pub struct SsTableIterator {
    block_iter: BlockIterator,
    table: Arc<SsTable>,
    idx: usize,
}

impl SsTableIterator {
    /// The table that is walked.
    pub closed spec fn table(&self) -> SsTable {
        *self.table
    }

    /// The block that the iterator is in.
    pub closed spec fn block_index(&self) -> int {
        self.idx as int
    }

    /// The position in the block.
    pub closed spec fn block_iter(&self) -> BlockIterator {
        self.block_iter
    }

    /// An iterator on the first entry of the table.
    pub fn create_and_seek_to_first(table: Arc<SsTable>) -> (r: Result<Self, LsmError>)
        requires
            table.index_wf(),
        ensures
            match r {
                Ok(iter) => iter.wf() && iter.table() == *table && iter.remaining()
                    == table.entries(),
                Err(e) => block_decoded(table.region(0)) == Err::<BlockView, LsmError>(e),
            },
            table.readable() ==> r is Ok,
    {
        let block_iter = match Self::seek_to_first_inner(&table, 0) {
            Ok(iter) => iter,
            Err(e) => { return Err(e); },
        };
        Ok(Self { block_iter, table, idx: 0 })
    }

    /// Goes back to the first entry of the table.
    pub fn seek_to_first(&mut self) -> (r: Result<(), LsmError>)
        requires
            old(self).wf(),
        ensures
            final(self).table() == old(self).table(),
            match r {
                Ok(()) => final(self).wf() && final(self).remaining()
                    == old(self).table().entries(),
                Err(e) => block_decoded(old(self).table().region(0)) == Err::<BlockView, LsmError>(
                    e,
                ),
            },
            old(self).table().readable() ==> r is Ok,
    {
        let block_iter = match Self::seek_to_first_inner(&self.table, 0) {
            Ok(iter) => iter,
            Err(e) => { return Err(e); },
        };
        self.idx = 0;
        self.block_iter = block_iter;
        Ok(())
    }

    fn seek_to_first_inner(table: &Arc<SsTable>, idx: usize) -> (r: Result<BlockIterator, LsmError>)
        requires
            table.index_wf(),
            idx < table.metas().len(),
        ensures
            match r {
                Ok(iter) => iter.wf() && iter.index() == 0 && block_decoded(
                    table.region(idx as int),
                ) == Ok::<BlockView, LsmError>(iter.block()) && iter.remaining()
                    == table.block_entries(idx as int),
                Err(e) => block_decoded(table.region(idx as int)) == Err::<BlockView, LsmError>(e),
            },
    {
        let block = match table.read_block(idx) {
            Ok(block) => block,
            Err(e) => { return Err(e); },
        };
        let iter = BlockIterator::create_and_seek_to_first(block);
        assert(iter.remaining() =~= table.block_entries(idx as int));
        Ok(iter)
    }

    /// An iterator on the first entry of the table whose key is `key` or
    /// sorts after it. The blocks that it reads are the one that the index
    /// gives for the key and, where no key of that block is that large, the
    /// one behind it.
    pub fn create_and_seek_to_key(table: Arc<SsTable>, key: &[u8]) -> (r: Result<Self, LsmError>)
        requires
            table.index_wf(),
        ensures
            r matches Ok(iter) ==> iter.wf() && iter.table() == *table && (table.intact()
                ==> seeked(table.entries(), key@, iter.remaining())),
            table.readable() ==> r is Ok,
    {
        let (idx, block_iter) = match Self::seek_to_key_inner(&table, key) {
            Ok(found) => found,
            Err(e) => { return Err(e); },
        };
        Ok(Self { block_iter, table, idx })
    }

    fn seek_to_key_inner(table: &Arc<SsTable>, key: &[u8]) -> (r: Result<
        (usize, BlockIterator),
        LsmError,
    >)
        requires
            table.index_wf(),
        ensures
            r matches Ok(found) ==> Self::positioned(**table, found.0 as int, found.1) && (
            table.intact() ==> seeked(
                table.entries(),
                key@,
                found.1.remaining() + table.entries_from(found.0 + 1),
            )),
            table.readable() ==> r is Ok,
    {
        let mut idx = table.find_block_idx(key);
        let block = match table.read_block(idx) {
            Ok(block) => block,
            Err(e) => { return Err(e); },
        };
        let mut block_iter = BlockIterator::create_and_seek_to_key(block, key);
        let ghost p = block_iter.index();
        let ghost first = idx as int;
        let moved = !block_iter.is_valid() && idx < table.num_of_blocks() - 1;
        if moved {
            idx += 1;
            block_iter = match Self::seek_to_first_inner(table, idx) {
                Ok(iter) => iter,
                Err(e) => { return Err(e); },
            };
        }
        proof {
            if table.intact() {
                table.lemma_first_keys_sorted();
                table.lemma_block_sorted(first);
                table.lemma_seeked(key@, first, p, idx as int, block_iter.remaining());
            }
        }
        Ok((idx, block_iter))
    }

    /// The iterator of a block is that of block `idx` of the table, and it
    /// is past the end of its block only in the last block.
    pub open spec fn positioned(table: SsTable, idx: int, block_iter: BlockIterator) -> bool {
        &&& table.index_wf()
        &&& 0 <= idx < table.metas().len()
        &&& block_iter.wf()
        &&& block_decoded(table.region(idx)) == Ok::<BlockView, LsmError>(block_iter.block())
        &&& block_iter.remaining().len() > 0 || idx == table.metas().len() - 1
    }

    /// Goes to the first entry of the table whose key is `key` or sorts
    /// after it.
    pub fn seek_to_key(&mut self, key: &[u8]) -> (r: Result<(), LsmError>)
        requires
            old(self).wf(),
        ensures
            final(self).table() == old(self).table(),
            r is Ok ==> final(self).wf() && (final(self).table().intact() ==> seeked(
                final(self).table().entries(),
                key@,
                final(self).remaining(),
            )),
            old(self).table().readable() ==> r is Ok,
    {
        let (idx, block_iter) = match Self::seek_to_key_inner(&self.table, key) {
            Ok(found) => found,
            Err(e) => { return Err(e); },
        };
        self.idx = idx;
        self.block_iter = block_iter;
        Ok(())
    }
}

impl SsTableIterator {
    /// What an iterator has yet to give is the end of the entries of its
    /// table; so in an intact table it gives keys in strictly growing
    /// order.
    pub proof fn lemma_remaining_sorted(&self)
        requires
            self.wf(),
            self.table().readable(),
        ensures
            self.remaining().len() <= self.table().entries().len(),
            self.remaining() == self.table().entries().skip(
                self.table().entries().len() - self.remaining().len(),
            ),
            self.table().intact() ==> entries_sorted(self.remaining()),
    {
        let table = self.table();
        let idx = self.block_index();
        let e = table.entries();
        let be = table.block_entries(idx);
        let p = self.block_iter().index();
        table.lemma_entries_split(idx);
        table.lemma_entries_split(idx + 1);
        assert(block_decoded(table.region(idx)) is Ok);
        let base = table.entries_before(idx).len() as int;
        assert(e =~= table.entries_before(idx) + (be + table.entries_from(idx + 1)));
        assert(self.remaining() =~= e.skip(base + p));
        if table.intact() {
            crate::key::lemma_sorted_skip(e, base + p);
        }
    }
}

impl StorageIterator for SsTableIterator {
    open spec fn wf(&self) -> bool {
        Self::positioned(self.table(), self.block_index(), self.block_iter())
    }

    open spec fn remaining(&self) -> Seq<(Seq<u8>, Seq<u8>)> {
        self.block_iter().remaining() + self.table().entries_from(self.block_index() + 1)
    }

    open spec fn reliable(&self) -> bool {
        self.table().readable()
    }

    fn value(&self) -> (value: &[u8]) {
        self.block_iter.value()
    }

    fn key(&self) -> (key: &[u8]) {
        self.block_iter.key()
    }

    fn is_valid(&self) -> (valid: bool) {
        proof {
            if self.idx == self.table.metas().len() - 1 {
                assert(self.table.entries_from(self.idx + 1) =~= Seq::empty());
            }
        }
        self.block_iter.is_valid()
    }

    fn next(&mut self) -> (r: Result<(), LsmError>) {
        let ghost before = self.remaining();
        self.block_iter.next();
        if !self.block_iter.is_valid() && self.idx < self.table.num_of_blocks() - 1 {
            let block_iter = match Self::seek_to_first_inner(&self.table, self.idx + 1) {
                Ok(iter) => iter,
                Err(e) => { return Err(e); },
            };
            self.idx += 1;
            self.block_iter = block_iter;
            assert(self.remaining() =~= rest_of(before));
        } else {
            proof {
                if old(self).idx == self.table.metas().len() - 1 {
                    assert(self.table.entries_from(self.idx + 1) =~= Seq::empty());
                }
                assert(self.remaining() =~= rest_of(before));
            }
        }
        Ok(())
    }
}

} // verus!
