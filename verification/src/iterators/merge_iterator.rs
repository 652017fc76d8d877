//! Merging many iterators of one type into one.
//!
//! The merged iterator gives the entries of its sources in the order of
//! their keys. Where several sources stand on the same key, it gives the
//! entry of the source with the smallest index and steps over the others.

use super::StorageIterator;
use crate::error::LsmError;
use crate::key::{
    compare_keys, key_le, key_lt, lemma_key_le_not_gt, lemma_key_le_transitive,
    lemma_key_le_lt, lemma_key_lt_asymmetric, lemma_key_lt_irreflexive, lemma_key_lt_le,
    lemma_key_lt_transitive,
    lemma_key_trichotomy, rest_of, KeyOrder,
};
use vstd::prelude::*;

verus! {

/// Source `i` is the one to take the next entry from: it has an entry, the
/// key of that entry sorts before the current keys of the sources before
/// it, and not after those of the sources behind it.
pub open spec fn is_first(seqs: Seq<Seq<(Seq<u8>, Seq<u8>)>>, i: int) -> bool {
    &&& 0 <= i < seqs.len()
    &&& seqs[i].len() > 0
    &&& forall|j: int|
        0 <= j < seqs.len() && (#[trigger] seqs[j]).len() > 0 ==> if j < i {
            key_lt(seqs[i][0].0, seqs[j][0].0)
        } else {
            key_le(seqs[i][0].0, seqs[j][0].0)
        }
}

/// No source has an entry left.
pub open spec fn all_empty(seqs: Seq<Seq<(Seq<u8>, Seq<u8>)>>) -> bool {
    forall|j: int| 0 <= j < seqs.len() ==> (#[trigger] seqs[j]).len() == 0
}

/// The sources after a step over `key`: every source that stood on `key`
/// has gone on by one entry.
pub open spec fn stepped(seqs: Seq<Seq<(Seq<u8>, Seq<u8>)>>, key: Seq<u8>) -> Seq<
    Seq<(Seq<u8>, Seq<u8>)>,
> {
    Seq::new(
        seqs.len(),
        |j: int|
            if seqs[j].len() > 0 && seqs[j][0].0 == key {
                seqs[j].skip(1)
            } else {
                seqs[j]
            },
    )
}

/// The number of entries that the sources have left, all together.
pub open spec fn total_len(seqs: Seq<Seq<(Seq<u8>, Seq<u8>)>>) -> nat
    decreases seqs.len(),
{
    if seqs.len() == 0 {
        0
    } else {
        total_len(seqs.drop_last()) + seqs.last().len()
    }
}

/// What the merged iterator gives for the sources `seqs`.
pub open spec fn merged(seqs: Seq<Seq<(Seq<u8>, Seq<u8>)>>) -> Seq<(Seq<u8>, Seq<u8>)>
    decreases total_len(seqs),
    via merged_decreases
{
    if !(exists|i: int| is_first(seqs, i)) {
        Seq::empty()
    } else {
        let i = choose|i: int| is_first(seqs, i);
        seq![seqs[i][0]] + merged(stepped(seqs, seqs[i][0].0))
    }
}

#[via_fn]
proof fn merged_decreases(seqs: Seq<Seq<(Seq<u8>, Seq<u8>)>>) {
    if exists|i: int| is_first(seqs, i) {
        let i = choose|i: int| is_first(seqs, i);
        lemma_stepped_shorter(seqs, i);
    }
}

/// Sources that are no longer than others, one by one, are no longer all
/// together, and shorter where one of them is shorter.
pub proof fn lemma_total_len_le(
    a: Seq<Seq<(Seq<u8>, Seq<u8>)>>,
    b: Seq<Seq<(Seq<u8>, Seq<u8>)>>,
)
    requires
        a.len() == b.len(),
        forall|j: int| 0 <= j < a.len() ==> (#[trigger] a[j]).len() <= b[j].len(),
    ensures
        total_len(a) <= total_len(b),
        (exists|j: int| 0 <= j < a.len() && (#[trigger] a[j]).len() < b[j].len()) ==> total_len(a)
            < total_len(b),
    decreases a.len(),
{
    if a.len() > 0 {
        let a0 = a.drop_last();
        let b0 = b.drop_last();
        assert forall|j: int| 0 <= j < a0.len() implies (#[trigger] a0[j]).len() <= b0[j].len() by {
            assert(a0[j] == a[j]);
            assert(b0[j] == b[j]);
        }
        lemma_total_len_le(a0, b0);
        assert(a.last() == a[a.len() - 1]);
        if exists|j: int| 0 <= j < a.len() && (#[trigger] a[j]).len() < b[j].len() {
            let j = choose|j: int| 0 <= j < a.len() && (#[trigger] a[j]).len() < b[j].len();
            if j < a.len() - 1 {
                assert(a0[j] == a[j]);
                assert(b0[j] == b[j]);
                assert(a0[j].len() < b0[j].len());
            }
        }
    }
}

/// A step over the key of the first source leaves fewer entries.
pub proof fn lemma_stepped_shorter(seqs: Seq<Seq<(Seq<u8>, Seq<u8>)>>, i: int)
    requires
        is_first(seqs, i),
    ensures
        total_len(stepped(seqs, seqs[i][0].0)) < total_len(seqs),
{
    let next = stepped(seqs, seqs[i][0].0);
    assert(next[i].len() < seqs[i].len());
    lemma_total_len_le(next, seqs);
}

/// At most one source is the first.
pub proof fn lemma_first_unique(seqs: Seq<Seq<(Seq<u8>, Seq<u8>)>>, a: int, b: int)
    requires
        is_first(seqs, a),
        is_first(seqs, b),
    ensures
        a == b,
{
    if a < b {
        assert(seqs[a].len() > 0);
        lemma_key_le_not_gt(seqs[a][0].0, seqs[b][0].0);
    } else if b < a {
        assert(seqs[b].len() > 0);
        lemma_key_le_not_gt(seqs[b][0].0, seqs[a][0].0);
    }
}

/// What the merged iterator gives starts with the current entry of the
/// first source and goes on with what it gives after the step over that
/// key; it gives nothing where no source has an entry.
pub proof fn lemma_merged_unfold(seqs: Seq<Seq<(Seq<u8>, Seq<u8>)>>, i: int)
    ensures
        is_first(seqs, i) ==> merged(seqs) == seq![seqs[i][0]] + merged(
            stepped(seqs, seqs[i][0].0),
        ),
        all_empty(seqs) ==> merged(seqs) == Seq::<(Seq<u8>, Seq<u8>)>::empty(),
{
    if is_first(seqs, i) {
        let c = choose|i: int| is_first(seqs, i);
        lemma_first_unique(seqs, i, c);
    }
    if all_empty(seqs) {
        assert forall|j: int| !is_first(seqs, j) by {
            if 0 <= j < seqs.len() {
                assert(seqs[j].len() == 0);
            }
        }
    }
}

/// Merges iterators of one type. Where a key stands in several of them,
/// the entry of the one with the smallest index is given.
pub struct MergeIterator<I: StorageIterator> {
    iters: Vec<Box<I>>,
    current: Option<usize>,
}

impl<I: StorageIterator> MergeIterator<I> {
    /// What the sources have yet to give.
    pub closed spec fn sources(&self) -> Seq<Seq<(Seq<u8>, Seq<u8>)>> {
        Seq::new(self.iters@.len(), |j: int| self.iters@[j].remaining())
    }

    /// The source that the iterator stands on.
    pub closed spec fn current(&self) -> Option<usize> {
        self.current
    }

    /// Every source can be used.
    pub closed spec fn sources_wf(&self) -> bool {
        forall|j: int| 0 <= j < self.iters@.len() ==> (#[trigger] self.iters@[j]).wf()
    }

    /// Stepping a source cannot fail.
    pub closed spec fn sources_reliable(&self) -> bool {
        forall|j: int| 0 <= j < self.iters@.len() ==> (#[trigger] self.iters@[j]).reliable()
    }

    /// What the iterators in `iters` have yet to give.
    pub open spec fn remaining_of(iters: Seq<Box<I>>) -> Seq<Seq<(Seq<u8>, Seq<u8>)>> {
        Seq::new(iters.len(), |j: int| iters[j].remaining())
    }

    /// An iterator over the entries of all of `iters`, the earlier ones
    /// before the later ones where their keys are equal.
    pub fn create(iters: Vec<Box<I>>) -> (iter: Self)
        requires
            forall|j: int| 0 <= j < iters@.len() ==> (#[trigger] iters@[j]).wf(),
        ensures
            iter.wf(),
            iter.sources() == Self::remaining_of(iters@),
            iter.remaining() == merged(Self::remaining_of(iters@)),
            (forall|j: int| 0 <= j < iters@.len() ==> (#[trigger] iters@[j]).reliable())
                ==> iter.reliable(),
    {
        let current = Self::find_first(&iters);
        let iter = Self { iters, current };
        assert(iter.sources() =~= Self::remaining_of(iters@));
        iter
    }

    /// The first source among `iters`: the one with the smallest current
    /// key, and among those with that key the one with the smallest index.
    fn find_first(iters: &Vec<Box<I>>) -> (first: Option<usize>)
        requires
            forall|j: int| 0 <= j < iters@.len() ==> (#[trigger] iters@[j]).wf(),
        ensures
            match first {
                Some(i) => is_first(Self::remaining_of(iters@), i as int),
                None => all_empty(Self::remaining_of(iters@)),
            },
    {
        let ghost seqs = Self::remaining_of(iters@);
        let n = iters.len();
        let mut best: Option<usize> = None;
        let mut j: usize = 0;
        while j < n
            invariant
                j <= n == iters@.len(),
                seqs == Self::remaining_of(iters@),
                forall|k: int| 0 <= k < iters@.len() ==> (#[trigger] iters@[k]).wf(),
                match best {
                    Some(b) => {
                        &&& b < j
                        &&& seqs[b as int].len() > 0
                        &&& forall|k: int|
                            0 <= k < j && (#[trigger] seqs[k]).len() > 0 ==> if k < b {
                                key_lt(seqs[b as int][0].0, seqs[k][0].0)
                            } else {
                                key_le(seqs[b as int][0].0, seqs[k][0].0)
                            }
                    },
                    None => forall|k: int| 0 <= k < j ==> (#[trigger] seqs[k]).len() == 0,
                },
            decreases n - j,
        {
            assert(iters@[j as int].wf());
            assert(seqs[j as int] == iters@[j as int].remaining());
            if iters[j].is_valid() {
                match best {
                    None => {
                        best = Some(j);
                    },
                    Some(b) => {
                        assert(iters@[b as int].wf());
                        assert(seqs[b as int] == iters@[b as int].remaining());
                        let less = compare_keys(iters[j].key(), iters[b].key()) == KeyOrder::Less;
                        proof {
                            let kj = seqs[j as int][0].0;
                            let kb = seqs[b as int][0].0;
                            lemma_key_le_not_gt(kb, kj);
                            if less {
                                assert forall|k: int|
                                    0 <= k < j + 1 && (#[trigger] seqs[k]).len() > 0 implies if k
                                    < j {
                                    key_lt(kj, seqs[k][0].0)
                                } else {
                                    key_le(kj, seqs[k][0].0)
                                } by {
                                    if k < j {
                                        if k < b {
                                            lemma_key_lt_transitive(kj, kb, seqs[k][0].0);
                                        } else {
                                            lemma_key_lt_le(kj, kb, seqs[k][0].0);
                                        }
                                    }
                                }
                            }
                        }
                        if less {
                            best = Some(j);
                        }
                    },
                }
            }
            j += 1;
        }
        best
    }
}

impl<I: StorageIterator> StorageIterator for MergeIterator<I> {
    open spec fn wf(&self) -> bool {
        &&& self.sources_wf()
        &&& match self.current() {
            Some(i) => is_first(self.sources(), i as int),
            None => all_empty(self.sources()),
        }
    }

    open spec fn remaining(&self) -> Seq<(Seq<u8>, Seq<u8>)> {
        merged(self.sources())
    }

    open spec fn reliable(&self) -> bool {
        self.sources_reliable()
    }

    fn key(&self) -> (key: &[u8]) {
        proof {
            self.lemma_current();
        }
        match self.current {
            Some(i) => self.iters[i].key(),
            None => {
                let empty: &[u8] = &[];
                empty
            },
        }
    }

    fn value(&self) -> (value: &[u8]) {
        proof {
            self.lemma_current();
        }
        match self.current {
            Some(i) => self.iters[i].value(),
            None => {
                let empty: &[u8] = &[];
                empty
            },
        }
    }

    fn is_valid(&self) -> (valid: bool) {
        proof {
            self.lemma_current();
        }
        self.current.is_some()
    }

    fn next(&mut self) -> (r: Result<(), LsmError>) {
        let i = match self.current {
            Some(i) => i,
            None => {
                proof {
                    self.lemma_current();
                }
                return Ok(());
            },
        };
        let ghost before = self.sources();
        let ghost reliable = self.reliable();
        proof {
            self.lemma_current();
        }
        assert(self.iters@[i as int].wf());
        assert(before[i as int] == self.iters@[i as int].remaining());
        let key = vstd::slice::slice_to_vec(self.iters[i].key());
        let n = self.iters.len();
        let mut j: usize = 0;
        while j < n
            invariant
                j <= n == self.iters@.len(),
                before.len() == n,
                reliable == old(self).reliable(),
                key@ == before[i as int][0].0,
                i < n,
                before[i as int].len() > 0,
                forall|k: int| 0 <= k < n ==> (#[trigger] self.iters@[k]).wf(),
                forall|k: int|
                    0 <= k < j ==> (#[trigger] self.iters@[k]).remaining() == stepped(
                        before,
                        key@,
                    )[k],
                forall|k: int| j <= k < n ==> (#[trigger] self.iters@[k]).remaining() == before[k],
                reliable ==> forall|k: int| 0 <= k < n ==> (#[trigger] self.iters@[k]).reliable(),
            decreases n - j,
        {
            assert(self.iters@[j as int].wf());
            let hit = self.iters[j].is_valid() && compare_keys(self.iters[j].key(), key.as_slice())
                == KeyOrder::Equal;
            if hit {
                let ghost others = self.iters@;
                match self.iters[j].next() {
                    Ok(()) => {},
                    Err(e) => {
                        assert(!reliable) by {
                            if reliable {
                                assert(others[j as int].reliable());
                            }
                        }
                        return Err(e);
                    },
                }
                assert forall|k: int| 0 <= k < n && k != j implies self.iters@[k] == others[k] by {}
            }
            j += 1;
        }
        self.current = Self::find_first(&self.iters);
        proof {
            assert(self.sources() =~= stepped(before, key@));
            lemma_merged_unfold(before, i as int);
            let m = merged(before);
            assert(m.skip(1) =~= merged(stepped(before, key@)));
            assert(self.sources() =~= Self::remaining_of(self.iters@));
        }
        Ok(())
    }
}

impl<I: StorageIterator> MergeIterator<I> {
    /// The merged iterator stands on the current entry of its current
    /// source, and on none where it has no current source.
    proof fn lemma_current(&self)
        requires
            self.wf(),
        ensures
            match self.current {
                Some(i) => i < self.iters@.len() && self.iters@[i as int].wf()
                    && self.iters@[i as int].remaining().len() > 0 && self.remaining().len() > 0
                    && self.remaining()[0] == self.iters@[i as int].remaining()[0],
                None => self.remaining().len() == 0,
            },
    {
        match self.current {
            Some(i) => {
                lemma_merged_unfold(self.sources(), i as int);
            },
            None => {
                lemma_merged_unfold(self.sources(), 0);
            },
        }
    }
}

} // verus!

verus! {

/// Every source is sorted.
pub open spec fn sources_sorted(seqs: Seq<Seq<(Seq<u8>, Seq<u8>)>>) -> bool {
    forall|j: int| 0 <= j < seqs.len() ==> crate::key::entries_sorted(#[trigger] seqs[j])
}

/// Every entry of every source has a key above `key`.
pub open spec fn all_above(seqs: Seq<Seq<(Seq<u8>, Seq<u8>)>>, key: Seq<u8>) -> bool {
    forall|j: int, i: int|
        0 <= j < seqs.len() && 0 <= i < seqs[j].len() ==> key_lt(key, (#[trigger] seqs[j][i]).0)
}

/// Every entry that the merged iterator gives is an entry of a source.
pub proof fn lemma_merged_members(seqs: Seq<Seq<(Seq<u8>, Seq<u8>)>>, k: int)
    requires
        0 <= k < merged(seqs).len(),
    ensures
        exists|j: int, i: int|
            0 <= j < seqs.len() && 0 <= i < seqs[j].len() && (#[trigger] seqs[j][i]) == merged(
                seqs,
            )[k],
    decreases total_len(seqs),
{
    if exists|f: int| is_first(seqs, f) {
        let f = choose|f: int| is_first(seqs, f);
        let next = stepped(seqs, seqs[f][0].0);
        lemma_stepped_shorter(seqs, f);
        if k == 0 {
            assert(seqs[f][0] == merged(seqs)[0]);
        } else {
            assert(merged(seqs)[k] == merged(next)[k - 1]);
            lemma_merged_members(next, k - 1);
            let (j, i) = choose|j: int, i: int|
                0 <= j < next.len() && 0 <= i < next[j].len() && (#[trigger] next[j][i])
                    == merged(next)[k - 1];
            if seqs[j].len() > 0 && seqs[j][0].0 == seqs[f][0].0 {
                assert(seqs[j][i + 1] == next[j][i]);
            } else {
                assert(seqs[j][i] == next[j][i]);
            }
        }
    }
}

/// What the merged iterator gives for sorted sources is sorted: every key
/// comes once, and after the keys that sort before it.
pub proof fn lemma_merged_sorted(seqs: Seq<Seq<(Seq<u8>, Seq<u8>)>>)
    requires
        sources_sorted(seqs),
    ensures
        crate::key::entries_sorted(merged(seqs)),
    decreases total_len(seqs),
{
    let m = merged(seqs);
    if exists|f: int| is_first(seqs, f) {
        let f = choose|f: int| is_first(seqs, f);
        let key = seqs[f][0].0;
        let next = stepped(seqs, key);
        lemma_stepped_shorter(seqs, f);
        assert(sources_sorted(next)) by {
            assert forall|j: int| 0 <= j < next.len() implies crate::key::entries_sorted(
                #[trigger] next[j],
            ) by {
                assert(crate::key::entries_sorted(seqs[j]));
                if seqs[j].len() > 0 && seqs[j][0].0 == key {
                    crate::key::lemma_sorted_skip(seqs[j], 1);
                }
            }
        }
        lemma_merged_sorted(next);
        assert(all_above(next, key)) by {
            assert forall|j: int, i: int|
                0 <= j < next.len() && 0 <= i < next[j].len() implies key_lt(
                key,
                (#[trigger] next[j][i]).0,
            ) by {
                assert(crate::key::entries_sorted(seqs[j]));
                assert(seqs[j].len() > 0);
                let head = seqs[j][0].0;
                assert(key_le(key, head)) by {
                    if j < f {
                        assert(key_lt(key, head));
                    }
                }
                if head == key {
                    assert(next[j][i] == seqs[j][i + 1]);
                    assert(key_lt(seqs[j][0].0, seqs[j][i + 1].0));
                } else {
                    assert(next[j][i] == seqs[j][i]);
                    if i > 0 {
                        assert(key_lt(seqs[j][0].0, seqs[j][i].0));
                        lemma_key_lt_transitive(key, head, seqs[j][i].0);
                    }
                }
            }
        }
        let rest = merged(next);
        assert forall|a: int, b: int| 0 <= a < b < m.len() implies key_lt(
            #[trigger] m[a].0,
            #[trigger] m[b].0,
        ) by {
            assert(m[b] == rest[b - 1]);
            if a == 0 {
                lemma_merged_members(next, b - 1);
                let (j, i) = choose|j: int, i: int|
                    0 <= j < next.len() && 0 <= i < next[j].len() && (#[trigger] next[j][i])
                        == rest[b - 1];
                assert(key_lt(key, next[j][i].0));
            } else {
                assert(m[a] == rest[a - 1]);
            }
        }
    }
}

} // verus!

verus! {

/// The value that the first of the sources from number `from` on that has
/// the key has for it.
pub open spec fn first_in(seqs: Seq<Seq<(Seq<u8>, Seq<u8>)>>, key: Seq<u8>, from: int) -> Option<
    Seq<u8>,
>
    decreases seqs.len() - from,
{
    if from < 0 || from >= seqs.len() {
        None
    } else {
        match crate::key::value_in(seqs[from], key) {
            Some(value) => Some(value),
            None => first_in(seqs, key, from + 1),
        }
    }
}

/// Sources that have the same for a key, one by one, have the same for it
/// all together.
pub proof fn lemma_first_in_same(
    a: Seq<Seq<(Seq<u8>, Seq<u8>)>>,
    b: Seq<Seq<(Seq<u8>, Seq<u8>)>>,
    key: Seq<u8>,
    from: int,
)
    requires
        a.len() == b.len(),
        forall|j: int|
            from <= j < a.len() ==> crate::key::value_in(#[trigger] a[j], key)
                == crate::key::value_in(b[j], key),
    ensures
        first_in(a, key, from) == first_in(b, key, from),
    decreases a.len() - from,
{
    if 0 <= from < a.len() {
        assert(crate::key::value_in(a[from], key) == crate::key::value_in(b[from], key));
        lemma_first_in_same(a, b, key, from + 1);
    }
}

/// The first source from number `from` on that has the key is source `at`.
pub proof fn lemma_first_in_at(seqs: Seq<Seq<(Seq<u8>, Seq<u8>)>>, key: Seq<u8>, from: int, at: int)
    requires
        0 <= from <= at < seqs.len(),
        forall|j: int| from <= j < at ==> crate::key::value_in(#[trigger] seqs[j], key) is None,
    ensures
        first_in(seqs, key, from) == match crate::key::value_in(seqs[at], key) {
            Some(value) => Some(value),
            None => first_in(seqs, key, at + 1),
        },
    decreases at - from,
{
    if from < at {
        assert(crate::key::value_in(seqs[from], key) is None);
        lemma_first_in_at(seqs, key, from + 1, at);
    }
}

/// Source `i` is the first among the sources before number `n`.
pub open spec fn first_among(seqs: Seq<Seq<(Seq<u8>, Seq<u8>)>>, i: int, n: int) -> bool {
    &&& 0 <= i < n
    &&& seqs[i].len() > 0
    &&& forall|j: int|
        0 <= j < n && (#[trigger] seqs[j]).len() > 0 ==> if j < i {
            key_lt(seqs[i][0].0, seqs[j][0].0)
        } else {
            key_le(seqs[i][0].0, seqs[j][0].0)
        }
}

/// Among the sources before number `n` one is the first, unless none of
/// them has an entry.
pub proof fn lemma_first_among(seqs: Seq<Seq<(Seq<u8>, Seq<u8>)>>, n: int) -> (first: Option<int>)
    requires
        0 <= n <= seqs.len(),
    ensures
        match first {
            Some(i) => first_among(seqs, i, n),
            None => forall|j: int| 0 <= j < n ==> (#[trigger] seqs[j]).len() == 0,
        },
    decreases n,
{
    if n == 0 {
        None
    } else {
        let before = lemma_first_among(seqs, n - 1);
        let last = n - 1;
        if seqs[last].len() == 0 {
            before
        } else {
            match before {
                None => Some(last),
                Some(i) => {
                    let a = seqs[i][0].0;
                    let b = seqs[last][0].0;
                    lemma_key_trichotomy(a, b);
                    if key_le(a, b) {
                        Some(i)
                    } else {
                        assert forall|j: int| 0 <= j < n && (#[trigger] seqs[j]).len() > 0 implies if j
                            < last {
                            key_lt(b, seqs[j][0].0)
                        } else {
                            key_le(b, seqs[j][0].0)
                        } by {
                            if j < last {
                                let c = seqs[j][0].0;
                                assert(key_le(a, c));
                                lemma_key_lt_le(b, a, c);
                            }
                        }
                        Some(last)
                    }
                },
            }
        }
    }
}

/// One of the sources is the first, unless none has an entry.
pub proof fn lemma_first_exists(seqs: Seq<Seq<(Seq<u8>, Seq<u8>)>>)
    ensures
        all_empty(seqs) || exists|i: int| is_first(seqs, i),
{
    match lemma_first_among(seqs, seqs.len() as int) {
        Some(i) => {
            assert(is_first(seqs, i));
        },
        None => {},
    }
}

/// After a step the sources are sorted as before.
pub proof fn lemma_stepped_sorted(seqs: Seq<Seq<(Seq<u8>, Seq<u8>)>>, key: Seq<u8>)
    requires
        sources_sorted(seqs),
    ensures
        sources_sorted(stepped(seqs, key)),
{
    let next = stepped(seqs, key);
    assert forall|j: int| 0 <= j < next.len() implies crate::key::entries_sorted(
        #[trigger] next[j],
    ) by {
        assert(crate::key::entries_sorted(seqs[j]));
        if seqs[j].len() > 0 && seqs[j][0].0 == key {
            crate::key::lemma_sorted_skip(seqs[j], 1);
        }
    }
}

/// What the merged iterator gives for sorted sources has for each key the
/// value of the first source that has the key.
pub proof fn lemma_merged_value(seqs: Seq<Seq<(Seq<u8>, Seq<u8>)>>, key: Seq<u8>)
    requires
        sources_sorted(seqs),
    ensures
        crate::key::value_in(merged(seqs), key) == first_in(seqs, key, 0),
    decreases total_len(seqs),
{
    let m = merged(seqs);
    lemma_merged_sorted(seqs);
    lemma_first_exists(seqs);
    if exists|f: int| is_first(seqs, f) {
        let f = choose|f: int| is_first(seqs, f);
        let head = seqs[f][0].0;
        let next = stepped(seqs, head);
        let rest = merged(next);
        lemma_stepped_shorter(seqs, f);
        lemma_stepped_sorted(seqs, head);
        lemma_merged_value(next, key);
        lemma_merged_sorted(next);
        assert(m == seq![seqs[f][0]] + rest);
        assert(crate::key::entries_sorted(seqs[f]));
        if key == head {
            assert(m[0] == seqs[f][0]);
            crate::key::lemma_value_at(m, key, 0);
            crate::key::lemma_value_at(seqs[f], key, 0);
            assert forall|j: int| 0 <= j < f implies crate::key::value_in(
                #[trigger] seqs[j],
                key,
            ) is None by {
                if crate::key::has_key(seqs[j], key) {
                    let i = choose|i: int| 0 <= i < seqs[j].len() && (#[trigger] seqs[j][i]).0 == key;
                    assert(crate::key::entries_sorted(seqs[j]));
                    assert(key_lt(head, seqs[j][0].0));
                    if i > 0 {
                        assert(key_lt(seqs[j][0].0, seqs[j][i].0));
                        lemma_key_lt_transitive(head, seqs[j][0].0, seqs[j][i].0);
                    }
                    lemma_key_lt_irreflexive(key);
                }
            }
            lemma_first_in_at(seqs, key, 0, f);
        } else {
            assert(crate::key::value_in(m, key) == crate::key::value_in(rest, key)) by {
                assert(m.skip(1) =~= rest);
                crate::key::lemma_value_behind(m, key);
            }
            assert forall|j: int| 0 <= j < next.len() implies crate::key::value_in(
                #[trigger] next[j],
                key,
            ) == crate::key::value_in(seqs[j], key) by {
                assert(crate::key::entries_sorted(seqs[j]));
                if seqs[j].len() > 0 && seqs[j][0].0 == head {
                    crate::key::lemma_value_behind(seqs[j], key);
                }
            }
            lemma_first_in_same(next, seqs, key, 0);
        }
    } else {
        assert(all_empty(seqs));
        assert(m.len() == 0);
        assert(!crate::key::has_key(m, key));
        assert forall|j: int| 0 <= j < seqs.len() implies crate::key::value_in(
            #[trigger] seqs[j],
            key,
        ) is None by {
            assert(seqs[j].len() == 0);
        }
        lemma_first_in_none(seqs, key, 0);
    }
}

/// Sources without the key have nothing for it.
pub proof fn lemma_first_in_none(seqs: Seq<Seq<(Seq<u8>, Seq<u8>)>>, key: Seq<u8>, from: int)
    requires
        forall|j: int| from <= j < seqs.len() ==> crate::key::value_in(#[trigger] seqs[j], key) is None,
    ensures
        first_in(seqs, key, from) is None,
    decreases seqs.len() - from,
{
    if 0 <= from < seqs.len() {
        lemma_first_in_none(seqs, key, from + 1);
    }
}

} // verus!

verus! {

/// What each source has from `key` on.
pub open spec fn sources_from(seqs: Seq<Seq<(Seq<u8>, Seq<u8>)>>, key: Seq<u8>) -> Seq<
    Seq<(Seq<u8>, Seq<u8>)>,
> {
    Seq::new(seqs.len(), |j: int| crate::key::from_key(seqs[j], key))
}

/// To merge what sorted sources have from a key on is to merge the sources
/// and to go on to that key.
pub proof fn lemma_merged_from_key(seqs: Seq<Seq<(Seq<u8>, Seq<u8>)>>, key: Seq<u8>)
    requires
        sources_sorted(seqs),
    ensures
        merged(sources_from(seqs, key)) == crate::key::from_key(merged(seqs), key),
    decreases total_len(seqs),
{
    let cut = sources_from(seqs, key);
    lemma_first_exists(seqs);
    if exists|f: int| is_first(seqs, f) {
        let f = choose|f: int| is_first(seqs, f);
        let head = seqs[f][0].0;
        let next = stepped(seqs, head);
        lemma_merged_unfold(seqs, f);
        assert(merged(seqs)[0] == seqs[f][0]);
        if key_lt(head, key) {
            lemma_stepped_shorter(seqs, f);
            lemma_stepped_sorted(seqs, head);
            lemma_merged_from_key(next, key);
            assert(sources_from(next, key) =~= cut) by {
                assert forall|j: int| 0 <= j < seqs.len() implies crate::key::from_key(
                    next[j],
                    key,
                ) == crate::key::from_key(seqs[j], key) by {}
            }
            assert(merged(seqs).skip(1) =~= merged(next));
        } else {
            assert(cut =~= seqs) by {
                assert forall|j: int| 0 <= j < seqs.len() implies crate::key::from_key(
                    seqs[j],
                    key,
                ) == seqs[j] by {
                    if seqs[j].len() > 0 && key_lt(seqs[j][0].0, key) {
                        assert(key_le(head, seqs[j][0].0));
                        lemma_key_le_lt(head, seqs[j][0].0, key);
                    }
                }
            }
        }
    } else {
        assert(all_empty(cut));
        lemma_merged_unfold(seqs, 0);
        lemma_merged_unfold(cut, 0);
    }
}

} // verus!

