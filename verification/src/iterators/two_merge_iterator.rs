//! Merging two iterators of different types into one.
//!
//! The merged iterator gives the entries of both in the order of their
//! keys; where both stand on the same key it gives the entry of the first
//! and steps over that of the second.

use super::StorageIterator;
use crate::error::LsmError;
use crate::key::{compare_keys, key_le, rest_of, KeyOrder};
use vstd::prelude::*;

verus! {

/// The entries `b` without those at its start that have the key `key`.
pub open spec fn dropped(b: Seq<(Seq<u8>, Seq<u8>)>, key: Seq<u8>) -> Seq<(Seq<u8>, Seq<u8>)>
    decreases b.len(),
{
    if b.len() > 0 && b[0].0 == key {
        dropped(b.skip(1), key)
    } else {
        b
    }
}

/// What is dropped leaves no more than there was.
pub proof fn lemma_dropped_len(b: Seq<(Seq<u8>, Seq<u8>)>, key: Seq<u8>)
    ensures
        dropped(b, key).len() <= b.len(),
        dropped(b, key).len() > 0 ==> dropped(b, key)[0].0 != key,
        dropped(dropped(b, key), key) == dropped(b, key),
    decreases b.len(),
{
    if b.len() > 0 && b[0].0 == key {
        lemma_dropped_len(b.skip(1), key);
    }
}

/// `b` as the merged iterator holds it: without the entries at its start
/// that have the current key of `a`.
pub open spec fn settled(a: Seq<(Seq<u8>, Seq<u8>)>, b: Seq<(Seq<u8>, Seq<u8>)>) -> Seq<
    (Seq<u8>, Seq<u8>),
> {
    if a.len() > 0 {
        dropped(b, a[0].0)
    } else {
        b
    }
}

/// Whether the next entry comes from `a`: `b` has none, or the current key
/// of `a` does not sort after that of `b`.
pub open spec fn takes_a(a: Seq<(Seq<u8>, Seq<u8>)>, b: Seq<(Seq<u8>, Seq<u8>)>) -> bool {
    b.len() == 0 || (a.len() > 0 && key_le(a[0].0, b[0].0))
}

/// What the merged iterator gives for `a` and `b`.
pub open spec fn two_merged(a: Seq<(Seq<u8>, Seq<u8>)>, b: Seq<(Seq<u8>, Seq<u8>)>) -> Seq<
    (Seq<u8>, Seq<u8>),
>
    decreases a.len() + b.len(),
{
    let rest = settled(a, b);
    if a.len() == 0 && rest.len() == 0 {
        Seq::empty()
    } else if takes_a(a, rest) {
        proof {
            lemma_dropped_len(b, a[0].0);
        }
        seq![a[0]] + two_merged(a.skip(1), rest)
    } else {
        proof {
            if a.len() > 0 {
                lemma_dropped_len(b, a[0].0);
            }
        }
        seq![rest[0]] + two_merged(a, rest.skip(1))
    }
}

/// Merges two iterators; where both have a key, the entry of the first is
/// given.
pub struct TwoMergeIterator<A: StorageIterator, B: StorageIterator> {
    a: A,
    b: B,
    choose_a: bool,
}

impl<A: StorageIterator, B: StorageIterator> TwoMergeIterator<A, B> {
    /// The first iterator.
    pub closed spec fn first(&self) -> A {
        self.a
    }

    /// The second iterator.
    pub closed spec fn second(&self) -> B {
        self.b
    }

    /// Whether the current entry is that of the first iterator.
    pub closed spec fn on_first(&self) -> bool {
        self.choose_a
    }

    /// An iterator over the entries of `a` and `b`.
    pub fn create(a: A, b: B) -> (r: Result<Self, LsmError>)
        requires
            a.wf(),
            b.wf(),
        ensures
            r matches Ok(iter) ==> iter.wf() && iter.remaining() == two_merged(
                a.remaining(),
                b.remaining(),
            ) && (a.reliable() && b.reliable() ==> iter.reliable()),
            a.reliable() && b.reliable() ==> r is Ok,
    {
        let mut iter = Self { a, b, choose_a: false };
        match iter.settle() {
            Ok(()) => {},
            Err(e) => { return Err(e); },
        }
        proof {
            lemma_two_merged_settled(a.remaining(), b.remaining());
        }
        Ok(iter)
    }

    /// Steps the second iterator over the current key of the first, then
    /// sees which of the two is next.
    fn settle(&mut self) -> (r: Result<(), LsmError>)
        requires
            old(self).a.wf(),
            old(self).b.wf(),
        ensures
            r is Ok ==> {
                &&& final(self).wf()
                &&& final(self).a == old(self).a
                &&& final(self).b.remaining() == settled(
                    old(self).a.remaining(),
                    old(self).b.remaining(),
                )
                &&& old(self).b.reliable() ==> final(self).b.reliable()
            },
            old(self).b.reliable() ==> r is Ok,
    {
        if self.a.is_valid() {
            let ghost key = self.a.remaining()[0].0;
            while self.b.is_valid() && compare_keys(self.b.key(), self.a.key()) == KeyOrder::Equal
                invariant
                    self.a == old(self).a,
                    self.a.wf(),
                    self.b.wf(),
                    self.a.remaining().len() > 0,
                    key == self.a.remaining()[0].0,
                    dropped(self.b.remaining(), key) == dropped(old(self).b.remaining(), key),
                    old(self).b.reliable() ==> self.b.reliable(),
                decreases self.b.remaining().len(),
            {
                match self.b.next() {
                    Ok(()) => {},
                    Err(e) => { return Err(e); },
                }
            }
        }
        self.choose_a = self.choose_a();
        proof {
            if self.a.remaining().len() > 0 {
                lemma_dropped_len(self.b.remaining(), self.a.remaining()[0].0);
            }
        }
        Ok(())
    }

    fn choose_a(&self) -> (first: bool)
        requires
            self.a.wf(),
            self.b.wf(),
        ensures
            first == takes_a(self.a.remaining(), self.b.remaining()),
    {
        if !self.b.is_valid() {
            return true;
        }
        self.a.is_valid() && compare_keys(self.a.key(), self.b.key()) != KeyOrder::Greater
    }
}

/// What the merged iterator gives does not depend on whether the second
/// source was already stepped over the current key of the first.
pub proof fn lemma_two_merged_settled(a: Seq<(Seq<u8>, Seq<u8>)>, b: Seq<(Seq<u8>, Seq<u8>)>)
    ensures
        two_merged(a, settled(a, b)) == two_merged(a, b),
{
    if a.len() > 0 {
        lemma_dropped_len(b, a[0].0);
    }
}

impl<A: StorageIterator, B: StorageIterator> StorageIterator for TwoMergeIterator<A, B> {
    open spec fn wf(&self) -> bool {
        &&& self.first().wf()
        &&& self.second().wf()
        &&& self.second().remaining() == settled(
            self.first().remaining(),
            self.second().remaining(),
        )
        &&& self.on_first() == takes_a(self.first().remaining(), self.second().remaining())
    }

    open spec fn remaining(&self) -> Seq<(Seq<u8>, Seq<u8>)> {
        two_merged(self.first().remaining(), self.second().remaining())
    }

    open spec fn reliable(&self) -> bool {
        self.first().reliable() && self.second().reliable()
    }

    fn key(&self) -> (key: &[u8]) {
        if self.choose_a {
            return self.a.key();
        }
        self.b.key()
    }

    fn value(&self) -> (value: &[u8]) {
        if self.choose_a {
            return self.a.value();
        }
        self.b.value()
    }

    fn is_valid(&self) -> (valid: bool) {
        self.a.is_valid() || self.b.is_valid()
    }

    fn next(&mut self) -> (r: Result<(), LsmError>) {
        let ghost a0 = self.a.remaining();
        let ghost b0 = self.b.remaining();
        if self.choose_a {
            match self.a.next() {
                Ok(()) => {},
                Err(e) => { return Err(e); },
            }
        } else {
            match self.b.next() {
                Ok(()) => {},
                Err(e) => { return Err(e); },
            }
        }
        let ghost a1 = self.a.remaining();
        let ghost b1 = self.b.remaining();
        match self.settle() {
            Ok(()) => {},
            Err(e) => { return Err(e); },
        }
        proof {
            lemma_two_merged_settled(a1, b1);
            if a0.len() == 0 && b0.len() == 0 {
                assert(a1 == a0 && b1 == b0);
            } else {
                assert(two_merged(a0, b0).skip(1) =~= two_merged(a1, b1));
            }
        }
        Ok(())
    }
}

/// Of sorted entries at most the first has a given key: what is dropped of
/// them is that entry.
pub proof fn lemma_dropped_sorted(b: Seq<(Seq<u8>, Seq<u8>)>, key: Seq<u8>)
    requires
        crate::key::entries_sorted(b),
    ensures
        dropped(b, key) == if b.len() > 0 && b[0].0 == key {
            b.skip(1)
        } else {
            b
        },
{
    reveal_with_fuel(dropped, 2);
    if b.len() > 0 && b[0].0 == key {
        let rest = b.skip(1);
        if rest.len() > 0 && rest[0].0 == key {
            assert(rest[0] == b[1]);
            assert(crate::key::key_lt(b[0].0, b[1].0));
            crate::key::lemma_key_lt_irreflexive(key);
        }
    }
}

/// What the merged iterator gives for two sorted iterators is sorted, and
/// has for each key what the first has for it, and what the second has
/// where the first does not have the key.
pub proof fn lemma_two_merged(
    a: Seq<(Seq<u8>, Seq<u8>)>,
    b: Seq<(Seq<u8>, Seq<u8>)>,
    key: Seq<u8>,
)
    requires
        crate::key::entries_sorted(a),
        crate::key::entries_sorted(b),
    ensures
        crate::key::entries_sorted(two_merged(a, b)),
        crate::key::value_in(two_merged(a, b), key) == match crate::key::value_in(a, key) {
            Some(value) => Some(value),
            None => crate::key::value_in(b, key),
        },
        forall|i: int|
            0 <= i < two_merged(a, b).len() ==> crate::key::has_key(
                a,
                (#[trigger] two_merged(a, b)[i]).0,
            ) || crate::key::has_key(b, two_merged(a, b)[i].0),
    decreases a.len() + b.len(),
{
    let rest = settled(a, b);
    let m = two_merged(a, b);
    if a.len() > 0 {
        lemma_dropped_sorted(b, a[0].0);
        lemma_dropped_len(b, a[0].0);
    }
    if b.len() > 0 {
        crate::key::lemma_sorted_skip(b, 1);
    }
    if a.len() > 0 {
        crate::key::lemma_sorted_skip(a, 1);
    }
    if a.len() == 0 && rest.len() == 0 {
        assert(!crate::key::has_key(a, key));
        assert(!crate::key::has_key(b, key));
    } else if takes_a(a, rest) {
        let head = a[0];
        let tail = two_merged(a.skip(1), rest);
        lemma_two_merged(a.skip(1), rest, key);
        assert(m == seq![head] + tail);
        lemma_head_first(head, tail, a.skip(1), rest, a, b);
        lemma_cons_sorted(head, tail);
        crate::key::lemma_key_lt_irreflexive(key);
        if key == head.0 {
            crate::key::lemma_value_at(m, key, 0);
            crate::key::lemma_value_at(a, key, 0);
        } else {
            assert(m.skip(1) =~= tail);
            crate::key::lemma_value_behind(m, key);
            crate::key::lemma_value_behind(a, key);
            if b.len() > 0 && b[0].0 == head.0 {
                crate::key::lemma_value_behind(b, key);
            }
        }
        assert forall|i: int| 0 <= i < m.len() implies crate::key::has_key(a, (#[trigger] m[i]).0)
            || crate::key::has_key(b, m[i].0) by {
            if i == 0 {
                assert(a[0].0 == m[0].0);
            } else {
                assert(m[i] == tail[i - 1]);
                lemma_has_key_skip(a, tail[i - 1].0);
                if rest != b {
                    lemma_has_key_skip(b, tail[i - 1].0);
                }
            }
        }
    } else {
        let head = rest[0];
        assert(rest == b) by {
            if a.len() > 0 && b.len() > 0 && b[0].0 == a[0].0 {
                // `rest` is `b` without its first entry, whose key that of
                // `a` does not sort after.
                if rest.len() > 0 {
                    assert(rest[0] == b[1]);
                    assert(crate::key::key_lt(b[0].0, b[1].0));
                    crate::key::lemma_key_le_not_gt(a[0].0, rest[0].0);
                }
            }
        }
        let tail = two_merged(a, rest.skip(1));
        lemma_two_merged(a, rest.skip(1), key);
        assert(m == seq![head] + tail);
        if a.len() > 0 {
            crate::key::lemma_key_le_not_gt(a[0].0, head.0);
        }
        lemma_head_second(head, tail, a, b);
        lemma_cons_sorted(head, tail);
        crate::key::lemma_key_lt_irreflexive(key);
        if key == head.0 {
            crate::key::lemma_value_at(m, key, 0);
            crate::key::lemma_value_at(b, key, 0);
            if crate::key::has_key(a, key) {
                let i = choose|i: int| 0 <= i < a.len() && (#[trigger] a[i]).0 == key;
                if i > 0 {
                    assert(crate::key::key_lt(a[0].0, a[i].0));
                    crate::key::lemma_key_lt_asymmetric(a[0].0, head.0);
                }
            }
        } else {
            assert(m.skip(1) =~= tail);
            crate::key::lemma_value_behind(m, key);
            crate::key::lemma_value_behind(b, key);
        }
        assert forall|i: int| 0 <= i < m.len() implies crate::key::has_key(a, (#[trigger] m[i]).0)
            || crate::key::has_key(b, m[i].0) by {
            if i == 0 {
                assert(b[0].0 == m[0].0);
            } else {
                assert(m[i] == tail[i - 1]);
                lemma_has_key_skip(b, tail[i - 1].0);
            }
        }
    }
}

/// A key of the entries behind the first is a key of the entries.
pub proof fn lemma_has_key_skip(e: Seq<(Seq<u8>, Seq<u8>)>, key: Seq<u8>)
    requires
        e.len() > 0,
    ensures
        crate::key::has_key(e.skip(1), key) ==> crate::key::has_key(e, key),
{
    if crate::key::has_key(e.skip(1), key) {
        let i = choose|i: int| 0 <= i < e.skip(1).len() && (#[trigger] e.skip(1)[i]).0 == key;
        assert(e[i + 1].0 == key);
    }
}

/// An entry before sorted entries whose keys all sort after its key makes
/// sorted entries.
pub proof fn lemma_cons_sorted(head: (Seq<u8>, Seq<u8>), tail: Seq<(Seq<u8>, Seq<u8>)>)
    requires
        crate::key::entries_sorted(tail),
        forall|i: int| 0 <= i < tail.len() ==> crate::key::key_lt(head.0, (#[trigger] tail[i]).0),
    ensures
        crate::key::entries_sorted(seq![head] + tail),
{
    let all = seq![head] + tail;
    assert forall|i: int, j: int| 0 <= i < j < all.len() implies crate::key::key_lt(
        #[trigger] all[i].0,
        #[trigger] all[j].0,
    ) by {
        assert(all[j] == tail[j - 1]);
        if i > 0 {
            assert(all[i] == tail[i - 1]);
        }
    }
}

/// Where the first entry of `a` is given, every entry that is given behind
/// it has a key that sorts after its key.
proof fn lemma_head_first(
    head: (Seq<u8>, Seq<u8>),
    tail: Seq<(Seq<u8>, Seq<u8>)>,
    a1: Seq<(Seq<u8>, Seq<u8>)>,
    rest: Seq<(Seq<u8>, Seq<u8>)>,
    a: Seq<(Seq<u8>, Seq<u8>)>,
    b: Seq<(Seq<u8>, Seq<u8>)>,
)
    requires
        crate::key::entries_sorted(a),
        crate::key::entries_sorted(b),
        a.len() > 0,
        head == a[0],
        a1 == a.skip(1),
        rest == settled(a, b),
        takes_a(a, rest),
        forall|i: int|
            0 <= i < tail.len() ==> crate::key::has_key(a1, (#[trigger] tail[i]).0)
                || crate::key::has_key(rest, tail[i].0),
    ensures
        forall|i: int| 0 <= i < tail.len() ==> crate::key::key_lt(head.0, (#[trigger] tail[i]).0),
{
    lemma_dropped_sorted(b, a[0].0);
    lemma_dropped_len(b, a[0].0);
    if b.len() > 0 {
        crate::key::lemma_sorted_skip(b, 1);
    }
    assert forall|i: int| 0 <= i < tail.len() implies crate::key::key_lt(
        head.0,
        (#[trigger] tail[i]).0,
    ) by {
        let k = tail[i].0;
        if crate::key::has_key(a1, k) {
            let x = choose|x: int| 0 <= x < a1.len() && (#[trigger] a1[x]).0 == k;
            assert(a1[x] == a[x + 1]);
            assert(crate::key::key_lt(a[0].0, a[x + 1].0));
        } else {
            let y = choose|y: int| 0 <= y < rest.len() && (#[trigger] rest[y]).0 == k;
            assert(crate::key::key_le(a[0].0, rest[0].0));
            assert(rest[0].0 != a[0].0);
            if y > 0 {
                assert(crate::key::entries_sorted(rest));
                assert(crate::key::key_lt(rest[0].0, rest[y].0));
                crate::key::lemma_key_lt_transitive(a[0].0, rest[0].0, rest[y].0);
            }
        }
    }
}

/// Where the first entry of `b` is given, every entry that is given behind
/// it has a key that sorts after its key.
proof fn lemma_head_second(
    head: (Seq<u8>, Seq<u8>),
    tail: Seq<(Seq<u8>, Seq<u8>)>,
    a: Seq<(Seq<u8>, Seq<u8>)>,
    b: Seq<(Seq<u8>, Seq<u8>)>,
)
    requires
        crate::key::entries_sorted(a),
        crate::key::entries_sorted(b),
        b.len() > 0,
        head == b[0],
        a.len() > 0 ==> crate::key::key_lt(head.0, a[0].0),
        forall|i: int|
            0 <= i < tail.len() ==> crate::key::has_key(a, (#[trigger] tail[i]).0)
                || crate::key::has_key(b.skip(1), tail[i].0),
    ensures
        forall|i: int| 0 <= i < tail.len() ==> crate::key::key_lt(head.0, (#[trigger] tail[i]).0),
{
    assert forall|i: int| 0 <= i < tail.len() implies crate::key::key_lt(
        head.0,
        (#[trigger] tail[i]).0,
    ) by {
        let k = tail[i].0;
        if crate::key::has_key(a, k) {
            let x = choose|x: int| 0 <= x < a.len() && (#[trigger] a[x]).0 == k;
            if x > 0 {
                assert(crate::key::key_lt(a[0].0, a[x].0));
                crate::key::lemma_key_lt_transitive(head.0, a[0].0, a[x].0);
            }
        } else {
            let b1 = b.skip(1);
            let y = choose|y: int| 0 <= y < b1.len() && (#[trigger] b1[y]).0 == k;
            assert(b1[y] == b[y + 1]);
            assert(crate::key::key_lt(b[0].0, b[y + 1].0));
        }
    }
}

} // verus!
