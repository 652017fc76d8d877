//! The iterator of a scan: memtables over tables, up to a bound, without
//! the keys that are deleted.

use crate::error::LsmError;
use crate::iterators::merge_iterator::MergeIterator;
use crate::iterators::two_merge_iterator::TwoMergeIterator;
use crate::iterators::StorageIterator;
use crate::key::{below_upper, compare_keys, key_le, key_lt, rest_of, KeyOrder};
use crate::mem_table::MemTableIterator;
use crate::table::iterator::SsTableIterator;
use std::ops::Bound;
use vstd::prelude::*;

verus! {

/// The iterator that a scan filters: the merged memtables over the merged
/// tables.
pub type LsmIteratorInner = TwoMergeIterator<
    MergeIterator<MemTableIterator>,
    MergeIterator<SsTableIterator>,
>;

/// An upper bound as a bound on byte strings.
pub open spec fn end_view(end: Bound<Vec<u8>>) -> Bound<Seq<u8>> {
    match end {
        Bound::Included(key) => Bound::Included(key@),
        Bound::Excluded(key) => Bound::Excluded(key@),
        Bound::Unbounded => Bound::Unbounded,
    }
}

/// What a scan shows of the entries `s`: those before the first whose key
/// lies above the bound, without those whose value is empty.
pub open spec fn visible(s: Seq<(Seq<u8>, Seq<u8>)>, end: Bound<Seq<u8>>) -> Seq<
    (Seq<u8>, Seq<u8>),
>
    decreases s.len(),
{
    if s.len() == 0 || !below_upper(end, s[0].0) {
        Seq::empty()
    } else if s[0].1.len() == 0 {
        visible(s.skip(1), end)
    } else {
        seq![s[0]] + visible(s.skip(1), end)
    }
}

/// How what a scan shows of some entries follows from what it shows of the
/// entries behind the first.
pub proof fn lemma_visible_step(s: Seq<(Seq<u8>, Seq<u8>)>, end: Bound<Seq<u8>>)
    ensures
        s.len() == 0 || !below_upper(end, s[0].0) ==> visible(s, end) == Seq::<
            (Seq<u8>, Seq<u8>),
        >::empty(),
        s.len() > 0 && below_upper(end, s[0].0) && s[0].1.len() == 0 ==> visible(s, end)
            == visible(s.skip(1), end),
        s.len() > 0 && below_upper(end, s[0].0) && s[0].1.len() > 0 ==> visible(s, end)
            == seq![s[0]] + visible(s.skip(1), end),
{
}

/// Whether the key lies at or below the upper bound.
pub fn key_in_bound(key: &[u8], end: &Bound<Vec<u8>>) -> (inside: bool)
    ensures
        inside == below_upper(end_view(*end), key@),
{
    match end {
        Bound::Included(end) => compare_keys(key, end.as_slice()) != KeyOrder::Greater,
        Bound::Excluded(end) => compare_keys(key, end.as_slice()) == KeyOrder::Less,
        Bound::Unbounded => true,
    }
}

/// The iterator of a scan.
pub struct LsmIterator {
    inner: LsmIteratorInner,
    end: Bound<Vec<u8>>,
    is_valid: bool,
}

impl LsmIterator {
    /// The iterator that is filtered.
    pub closed spec fn inner(&self) -> LsmIteratorInner {
        self.inner
    }

    /// The upper bound of the scan.
    pub closed spec fn end(&self) -> Bound<Seq<u8>> {
        end_view(self.end)
    }

    /// Whether the scan has an entry to show.
    pub closed spec fn live(&self) -> bool {
        self.is_valid
    }

    /// An iterator over what a scan up to `end` shows of `inner`.
    pub fn new(inner: LsmIteratorInner, end: Bound<Vec<u8>>) -> (r: Result<Self, LsmError>)
        requires
            inner.wf(),
        ensures
            r matches Ok(iter) ==> iter.wf() && iter.end() == end_view(end) && iter.remaining()
                == visible(inner.remaining(), end_view(end)) && (inner.reliable()
                ==> iter.reliable()),
            inner.reliable() ==> r is Ok,
    {
        let mut iter = Self { is_valid: true, inner, end };
        iter.check_bound();
        match iter.skip_deleted() {
            Ok(()) => Ok(iter),
            Err(e) => Err(e),
        }
    }

    /// Whether the key lies at or below the upper bound.
    fn in_bound(&self, key: &[u8]) -> (inside: bool)
        ensures
            inside == below_upper(self.end(), key@),
    {
        key_in_bound(key, &self.end)
    }

    /// Ends the scan where the filtered iterator has ended or has passed
    /// the bound.
    fn check_bound(&mut self)
        requires
            old(self).inner.wf(),
            old(self).is_valid,
        ensures
            final(self).inner == old(self).inner,
            final(self).end == old(self).end,
            final(self).is_valid == (old(self).inner.remaining().len() > 0 && below_upper(
                old(self).end(),
                old(self).inner.remaining()[0].0,
            )),
    {
        if !self.inner.is_valid() {
            self.is_valid = false;
            return ;
        }
        if !self.in_bound(self.inner.key()) {
            self.is_valid = false;
        }
    }

    /// Goes past the entries whose value is empty.
    fn skip_deleted(&mut self) -> (r: Result<(), LsmError>)
        requires
            old(self).inner.wf(),
            old(self).is_valid ==> old(self).inner.remaining().len() > 0 && below_upper(
                old(self).end(),
                old(self).inner.remaining()[0].0,
            ),
        ensures
            final(self).end == old(self).end,
            r is Ok ==> final(self).wf() && final(self).remaining() == (if old(self).is_valid {
                visible(old(self).inner.remaining(), old(self).end())
            } else {
                Seq::empty()
            }) && (old(self).inner.reliable() ==> final(self).inner.reliable()),
            old(self).inner.reliable() ==> r is Ok,
    {
        while self.is_valid && self.inner.value().is_empty()
            invariant
                self.inner.wf(),
                self.end == old(self).end,
                self.is_valid ==> self.inner.remaining().len() > 0 && below_upper(
                    self.end(),
                    self.inner.remaining()[0].0,
                ),
                (if self.is_valid {
                    visible(self.inner.remaining(), self.end())
                } else {
                    Seq::empty()
                }) == (if old(self).is_valid {
                    visible(old(self).inner.remaining(), old(self).end())
                } else {
                    Seq::empty()
                }),
                old(self).inner.reliable() ==> self.inner.reliable(),
            decreases self.inner.remaining().len(),
        {
            let ghost s = self.inner.remaining();
            match self.next_inner() {
                Ok(()) => {},
                Err(e) => { return Err(e); },
            }
            proof {
                lemma_visible_step(s, self.end());
                lemma_visible_step(s.skip(1), self.end());
            }
        }
        Ok(())
    }

    /// Goes to the next entry of the filtered iterator, deleted or not.
    fn next_inner(&mut self) -> (r: Result<(), LsmError>)
        requires
            old(self).inner.wf(),
            old(self).is_valid ==> old(self).inner.remaining().len() > 0,
        ensures
            final(self).end == old(self).end,
            r is Ok ==> {
                &&& final(self).inner.wf()
                &&& final(self).inner.remaining() == (if old(self).is_valid {
                    old(self).inner.remaining().skip(1)
                } else {
                    old(self).inner.remaining()
                })
                &&& final(self).is_valid == (old(self).is_valid
                    && final(self).inner.remaining().len() > 0 && below_upper(
                    old(self).end(),
                    final(self).inner.remaining()[0].0,
                ))
                &&& old(self).inner.reliable() ==> final(self).inner.reliable()
            },
            old(self).inner.reliable() ==> r is Ok,
    {
        if !self.is_valid {
            return Ok(());
        }
        match self.inner.next() {
            Ok(()) => {},
            Err(e) => { return Err(e); },
        }
        self.check_bound();
        Ok(())
    }
}

impl StorageIterator for LsmIterator {
    open spec fn wf(&self) -> bool {
        &&& self.inner().wf()
        &&& self.live() ==> {
            &&& self.inner().remaining().len() > 0
            &&& below_upper(self.end(), self.inner().remaining()[0].0)
            &&& self.inner().remaining()[0].1.len() > 0
        }
    }

    open spec fn remaining(&self) -> Seq<(Seq<u8>, Seq<u8>)> {
        if self.live() {
            visible(self.inner().remaining(), self.end())
        } else {
            Seq::empty()
        }
    }

    open spec fn reliable(&self) -> bool {
        self.inner().reliable()
    }

    fn is_valid(&self) -> (valid: bool) {
        self.is_valid
    }

    fn key(&self) -> (key: &[u8]) {
        self.inner.key()
    }

    fn value(&self) -> (value: &[u8]) {
        self.inner.value()
    }

    fn next(&mut self) -> (r: Result<(), LsmError>) {
        let ghost before = self.remaining();
        let ghost s = self.inner.remaining();
        let ghost live = self.is_valid;
        match self.next_inner() {
            Ok(()) => {},
            Err(e) => { return Err(e); },
        }
        match self.skip_deleted() {
            Ok(()) => {},
            Err(e) => { return Err(e); },
        }
        proof {
            if live {
                lemma_visible_step(s, self.end());
                lemma_visible_step(s.skip(1), self.end());
                assert(before.skip(1) =~= visible(s.skip(1), self.end()));
            }
            assert(self.remaining() =~= rest_of(before));
        }
        Ok(())
    }
}

/// An iterator that is not stepped once it has ended: a step then
/// succeeds and leaves the iterator as it is.
pub struct FusedIterator<I: StorageIterator> {
    iter: I,
}

impl<I: StorageIterator> FusedIterator<I> {
    /// The iterator that is wrapped.
    pub closed spec fn iter(&self) -> I {
        self.iter
    }

    /// Wraps an iterator.
    pub fn new(iter: I) -> (fused: Self)
        ensures
            fused.iter() == iter,
    {
        Self { iter }
    }
}

impl<I: StorageIterator> StorageIterator for FusedIterator<I> {
    open spec fn wf(&self) -> bool {
        self.iter().wf()
    }

    open spec fn remaining(&self) -> Seq<(Seq<u8>, Seq<u8>)> {
        self.iter().remaining()
    }

    open spec fn reliable(&self) -> bool {
        self.iter().reliable()
    }

    fn is_valid(&self) -> (valid: bool) {
        self.iter.is_valid()
    }

    fn key(&self) -> (key: &[u8]) {
        self.iter.key()
    }

    fn value(&self) -> (value: &[u8]) {
        self.iter.value()
    }

    fn next(&mut self) -> (r: Result<(), LsmError>)
        ensures
            old(self).remaining().len() == 0 ==> r is Ok && *final(self) == *old(self),
    {
        if !self.is_valid() {
            return Ok(());
        }
        self.iter.next()
    }
}

} // verus!
