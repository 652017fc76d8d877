//! Walking a block: forward, with seeks by position and by key.

use super::{Block, BlockView};
use crate::key::{
    compare_keys, entries_sorted, is_lower_bound, key_le, key_lt, lemma_key_le_not_gt,
    lemma_key_lt_transitive, KeyOrder,
};
use std::sync::Arc;
use vstd::prelude::*;

verus! {

/// A position in a block, with a copy of the entry there.
#[derive(Debug)]
pub struct BlockIterator {
    block: Arc<Block>,
    key: Vec<u8>,
    value: Vec<u8>,
    idx: usize,
}

impl BlockIterator {
    /// The block that is walked.
    pub closed spec fn block(&self) -> BlockView {
        self.block@
    }

    /// The position: the number of entries before the current one.
    pub closed spec fn index(&self) -> int {
        self.idx as int
    }

    /// The current key; empty past the end.
    pub closed spec fn current_key(&self) -> Seq<u8> {
        self.key@
    }

    /// The current value; empty past the end.
    pub closed spec fn current_value(&self) -> Seq<u8> {
        self.value@
    }

    /// The entries from the current one on.
    pub open spec fn remaining(&self) -> Seq<(Seq<u8>, Seq<u8>)> {
        self.block().entries().skip(self.index())
    }

    /// What holds of every iterator: the block is well formed, the position
    /// is in it or just behind it, and the copy is of the entry there.
    pub open spec fn wf(&self) -> bool {
        &&& self.block().wf()
        &&& 0 <= self.index() <= self.block().offsets.len()
        &&& self.index() < self.block().offsets.len() ==> self.current_key() == self.block().key(
            self.index(),
        ) && self.current_value() == self.block().value(self.index())
        &&& self.index() == self.block().offsets.len() ==> self.current_key().len() == 0
            && self.current_value().len() == 0
    }

    fn new(block: Arc<Block>) -> (iter: Self)
        requires
            block.wf(),
        ensures
            iter.block() == block@,
            iter.index() == block@.offsets.len(),
            iter.wf(),
    {
        let idx = block.len();
        Self { block, key: Vec::new(), value: Vec::new(), idx }
    }

    /// An iterator on the first entry of the block.
    pub fn create_and_seek_to_first(block: Arc<Block>) -> (iter: Self)
        requires
            block.wf(),
        ensures
            iter.wf(),
            iter.block() == block@,
            iter.index() == 0,
    {
        let mut iter = Self::new(block);
        iter.seek_to_first();
        iter
    }

    /// An iterator on the first entry whose key is `key` or sorts after it.
    pub fn create_and_seek_to_key(block: Arc<Block>, key: &[u8]) -> (iter: Self)
        requires
            block.wf(),
        ensures
            iter.wf(),
            iter.block() == block@,
            entries_sorted(block@.entries()) ==> is_lower_bound(
                block@.entries(),
                key@,
                iter.index(),
            ),
    {
        let mut iter = Self::new(block);
        iter.seek_to_key(key);
        iter
    }

    /// The key of the current entry; empty past the end.
    pub fn key(&self) -> (key: &[u8])
        ensures
            key@ == self.current_key(),
    {
        self.key.as_slice()
    }

    /// The value of the current entry; empty past the end.
    pub fn value(&self) -> (value: &[u8])
        ensures
            value@ == self.current_value(),
    {
        self.value.as_slice()
    }

    /// Whether the iterator stands on an entry.
    pub fn is_valid(&self) -> (valid: bool)
        requires
            self.wf(),
        ensures
            valid == (self.index() < self.block().offsets.len()),
            valid == (self.remaining().len() > 0),
            valid == (self.current_key().len() > 0),
    {
        proof {
            if self.idx < self.block@.offsets.len() {
                assert(super::keyed_entry_at(
                    self.block@.data,
                    self.block@.offsets[self.idx as int] as int,
                ));
            }
        }
        !self.key.is_empty()
    }

    /// Goes to the first entry.
    pub fn seek_to_first(&mut self)
        requires
            old(self).wf(),
        ensures
            final(self).wf(),
            final(self).block() == old(self).block(),
            final(self).index() == 0,
    {
        self.seek_to(0);
    }

    /// Goes to the last entry.
    pub fn seek_to_last(&mut self)
        requires
            old(self).wf(),
        ensures
            final(self).wf(),
            final(self).block() == old(self).block(),
            final(self).index() == old(self).block().offsets.len() - 1,
    {
        let last = self.block.len() - 1;
        self.seek_to(last);
    }

    fn seek_to(&mut self, idx: usize)
        requires
            old(self).block().wf(),
        ensures
            final(self).wf(),
            final(self).block() == old(self).block(),
            final(self).index() == if idx < old(self).block().offsets.len() {
                idx as int
            } else {
                old(self).block().offsets.len() as int
            },
    {
        self.key.clear();
        self.value.clear();

        if idx >= self.block.len() {
            self.idx = self.block.len();
            return ;
        }
        self.idx = idx;
        self.key = vstd::slice::slice_to_vec(self.block.key(idx));
        self.value = vstd::slice::slice_to_vec(self.block.value(idx));
    }

    /// Goes to the next entry; stays past the end once there.
    pub fn next(&mut self)
        requires
            old(self).wf(),
        ensures
            final(self).wf(),
            final(self).block() == old(self).block(),
            final(self).index() == if old(self).index() < old(self).block().offsets.len() {
                old(self).index() + 1
            } else {
                old(self).index()
            },
            final(self).remaining() == if old(self).remaining().len() > 0 {
                old(self).remaining().skip(1)
            } else {
                old(self).remaining()
            },
    {
        let next = if self.idx < self.block.len() {
            self.idx + 1
        } else {
            self.idx
        };
        self.seek_to(next);
        assert(old(self).remaining().len() > 0 ==> self.remaining() =~= old(self).remaining().skip(
            1,
        ));
        assert(old(self).remaining().len() == 0 ==> self.remaining() =~= old(self).remaining());
    }

    /// Goes to the first entry whose key is `key` or sorts after it, by
    /// binary search; past the end where there is none. In a block whose
    /// keys are not sorted the position is some position of the block.
    pub fn seek_to_key(&mut self, key: &[u8])
        requires
            old(self).block().wf(),
        ensures
            final(self).wf(),
            final(self).block() == old(self).block(),
            entries_sorted(old(self).block().entries()) ==> is_lower_bound(
                old(self).block().entries(),
                key@,
                final(self).index(),
            ),
    {
        let ghost e = self.block@.entries();
        let mut left: usize = 0;
        let mut right: usize = self.block.len();

        while left < right
            invariant
                self.block().wf(),
                self.block() == old(self).block(),
                e == self.block().entries(),
                left <= right <= e.len(),
                entries_sorted(e) ==> forall|j: int| 0 <= j < left ==> key_lt(#[trigger] e[j].0, key@),
                entries_sorted(e) ==> forall|j: int|
                    right <= j < e.len() ==> key_lt(key@, #[trigger] e[j].0),
            decreases right - left,
        {
            let mid = (right - left) / 2 + left;
            let mid_key = self.block.key(mid);
            assert(mid_key@ == e[mid as int].0);
            match compare_keys(mid_key, key) {
                KeyOrder::Greater => {
                    proof {
                        if entries_sorted(e) {
                            assert forall|j: int| mid <= j < e.len() implies key_lt(
                                key@,
                                #[trigger] e[j].0,
                            ) by {
                                if j > mid {
                                    lemma_key_lt_transitive(key@, e[mid as int].0, e[j].0);
                                }
                            }
                        }
                    }
                    right = mid;
                },
                KeyOrder::Less => {
                    proof {
                        if entries_sorted(e) {
                            assert forall|j: int| 0 <= j < mid + 1 implies key_lt(
                                #[trigger] e[j].0,
                                key@,
                            ) by {
                                if j < mid {
                                    lemma_key_lt_transitive(e[j].0, e[mid as int].0, key@);
                                }
                            }
                        }
                    }
                    left = mid + 1;
                },
                KeyOrder::Equal => {
                    self.seek_to(mid);
                    return ;
                },
            }
        }
        self.seek_to(left);
    }
}

} // verus!
