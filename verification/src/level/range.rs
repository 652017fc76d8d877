//! The key ranges that a compaction is split into.

use super::task::Task;
use crate::key::{compare_keys, key_lt, lemma_key_lt_transitive, KeyOrder};
use crate::table::SsTable;
use std::ops::Bound;
use std::sync::Arc;
use vstd::prelude::*;

verus! {

/// A range of keys with an estimate of the bytes that a compaction reads
/// in it.
#[derive(Debug)]
pub struct RangeWithSize {
    /// Where the range starts.
    pub smallest_key: Vec<u8>,
    /// Where the range ends.
    pub biggest_key: Vec<u8>,
    /// The estimate of the bytes.
    pub size: usize,
}

/// Ranges of keys, one behind the other, with the sum of their sizes.
#[derive(Debug)]
pub struct RwsSlice {
    /// The ranges.
    pub ranges: Vec<RangeWithSize>,
    /// The sum of the sizes of the ranges.
    pub total_size: usize,
}

/// A range of a sub-compaction: from its lower bound to its upper bound.
pub type KeyRange = (Bound<Vec<u8>>, Bound<Vec<u8>>);

/// `a + b`, or the largest number where that is too large.
pub open spec fn capped_sum(a: usize, b: usize) -> usize {
    if a + b > usize::MAX {
        usize::MAX
    } else {
        (a + b) as usize
    }
}

/// The state of a split: the sub-ranges made so far, whether ranges are
/// gathered for a next one, their bytes, and the key at which it starts.
pub struct SplitState {
    pub made: Seq<(Seq<u8>, Seq<u8>)>,
    pub open: bool,
    pub gathered: usize,
    pub first_key: Seq<u8>,
}

/// The state of the split after the ranges from number `from` on: each
/// range adds its bytes to those gathered, and where these reach `mean`, a
/// sub-range from the first key gathered to the end of the range is made.
pub open spec fn split_from(
    ranges: Seq<RangeWithSize>,
    mean: usize,
    from: int,
    state: SplitState,
) -> SplitState
    decreases ranges.len() - from,
{
    if from < 0 || from >= ranges.len() {
        state
    } else {
        let first_key = if state.open {
            state.first_key
        } else {
            ranges[from].smallest_key@
        };
        let gathered = capped_sum(state.gathered, ranges[from].size);
        if gathered >= mean {
            split_from(
                ranges,
                mean,
                from + 1,
                SplitState {
                    made: state.made.push((first_key, ranges[from].biggest_key@)),
                    open: false,
                    gathered: 0,
                    first_key,
                },
            )
        } else {
            split_from(
                ranges,
                mean,
                from + 1,
                SplitState { made: state.made, open: true, gathered, first_key },
            )
        }
    }
}

/// The sub-ranges that a split makes, as pairs of the key at which each
/// starts and the key at which it ends: what the split gathers, with a last
/// sub-range for what is left over.
pub open spec fn split_pairs(ranges: Seq<RangeWithSize>, total_size: usize, mean: usize) -> Seq<
    (Seq<u8>, Seq<u8>),
> {
    if total_size == 0 || ranges.len() == 0 {
        Seq::empty()
    } else {
        let end = split_from(
            ranges,
            mean,
            0,
            SplitState { made: Seq::empty(), open: false, gathered: 0, first_key: Seq::empty() },
        );
        if end.open {
            end.made.push((end.first_key, ranges.last().biggest_key@))
        } else {
            end.made
        }
    }
}

/// A sub-range as pairs of bounds: it takes in the key at which it starts,
/// and the key at which it ends only where it is the last.
pub open spec fn range_view(range: KeyRange) -> (Bound<Seq<u8>>, Bound<Seq<u8>>) {
    (crate::lsm_iterator::end_view(range.0), crate::lsm_iterator::end_view(range.1))
}

/// The bounds of the sub-range number `i` of `n` from `start` to `end`.
pub open spec fn bounds_of(pair: (Seq<u8>, Seq<u8>), i: int, n: int) -> (
    Bound<Seq<u8>>,
    Bound<Seq<u8>>,
) {
    (
        Bound::Included(pair.0),
        if i == n - 1 {
            Bound::Included(pair.1)
        } else {
            Bound::Excluded(pair.1)
        },
    )
}

/// The key of a bound; none for no bound.
pub open spec fn bound_key(bound: Bound<Vec<u8>>) -> Seq<u8> {
    match bound {
        Bound::Included(key) => key@,
        Bound::Excluded(key) => key@,
        Bound::Unbounded => Seq::empty(),
    }
}

/// The keys at which sub-ranges start and end.
pub open spec fn made_of(res: Seq<KeyRange>) -> Seq<(Seq<u8>, Seq<u8>)> {
    Seq::new(res.len(), |j: int| (bound_key(res[j].0), bound_key(res[j].1)))
}

/// The ranges stand one behind the other: each begins where the one
/// before it ends.
pub open spec fn adjacent(ranges: Seq<RangeWithSize>) -> bool {
    forall|i: int, j: int|
        0 <= i && j == i + 1 && j < ranges.len() ==> (#[trigger] ranges[i]).biggest_key@ == (
        #[trigger] ranges[j]).smallest_key@
}

/// The sub-ranges `made` lie one behind the other from the key `start` on,
/// and the last of them ends at the key `end`.
pub open spec fn tiles(made: Seq<(Seq<u8>, Seq<u8>)>, start: Seq<u8>, end: Seq<u8>) -> bool {
    &&& made.len() > 0 ==> made[0].0 == start && made.last().1 == end
    &&& made.len() == 0 ==> start == end
    &&& forall|i: int, j: int|
        0 <= i && j == i + 1 && j < made.len() ==> (#[trigger] made[i]).1 == (#[trigger] made[j]).0
}

/// A split of ranges that stand one behind the other leaves no gap: its
/// sub-ranges stand one behind the other from the start of the first range
/// to the end of the last.
pub proof fn lemma_split_covers(ranges: Seq<RangeWithSize>, total_size: usize, mean: usize)
    requires
        adjacent(ranges),
        ranges.len() > 0,
        total_size > 0,
    ensures
        split_pairs(ranges, total_size, mean).len() > 0,
        tiles(
            split_pairs(ranges, total_size, mean),
            ranges[0].smallest_key@,
            ranges.last().biggest_key@,
        ),
{
    let start = SplitState { made: Seq::empty(), open: false, gathered: 0, first_key: Seq::empty() };
    lemma_split_from(ranges, mean, 0, start);
}

/// The state of a split at range number `from`: what was made lies one
/// behind the other from the start of the first range on, and what is
/// gathered begins where that ends.
pub open spec fn split_inv(ranges: Seq<RangeWithSize>, from: int, state: SplitState) -> bool {
    let reached = if from == 0 {
        ranges[0].smallest_key@
    } else {
        ranges[from - 1].biggest_key@
    };
    if state.open {
        tiles(state.made, ranges[0].smallest_key@, state.first_key) && from > 0
    } else {
        tiles(state.made, ranges[0].smallest_key@, reached) && (from > 0 ==> state.made.len() > 0)
    }
}

proof fn lemma_split_from(ranges: Seq<RangeWithSize>, mean: usize, from: int, state: SplitState)
    requires
        adjacent(ranges),
        ranges.len() > 0,
        0 <= from <= ranges.len(),
        split_inv(ranges, from, state),
    ensures
        ({
            let end = split_from(ranges, mean, from, state);
            let made = if end.open {
                end.made.push((end.first_key, ranges.last().biggest_key@))
            } else {
                end.made
            };
            tiles(made, ranges[0].smallest_key@, ranges.last().biggest_key@) && made.len() > 0
        }),
    decreases ranges.len() - from,
{
    if from < ranges.len() {
        let first_key = if state.open {
            state.first_key
        } else {
            ranges[from].smallest_key@
        };
        if from > 0 {
            assert(ranges[from - 1].biggest_key@ == ranges[from].smallest_key@);
        }
        let gathered = capped_sum(state.gathered, ranges[from].size);
        if gathered >= mean {
            let next = SplitState {
                made: state.made.push((first_key, ranges[from].biggest_key@)),
                open: false,
                gathered: 0,
                first_key,
            };
            assert forall|i: int, j: int|
                0 <= i && j == i + 1 && j < next.made.len() implies (#[trigger] next.made[i]).1 == (
            #[trigger] next.made[j]).0 by {
                if j < state.made.len() {
                    assert(state.made[i].1 == state.made[j].0);
                } else {
                    assert(state.made[i] == state.made.last());
                }
            }
            lemma_split_from(ranges, mean, from + 1, next);
        } else {
            let next = SplitState { made: state.made, open: true, gathered, first_key };
            lemma_split_from(ranges, mean, from + 1, next);
        }
    } else {
        assert(ranges[from - 1] == ranges.last());
        if state.open {
            let made = state.made.push((state.first_key, ranges.last().biggest_key@));
            assert forall|i: int, j: int|
                0 <= i && j == i + 1 && j < made.len() implies (#[trigger] made[i]).1 == (
            #[trigger] made[j]).0 by {
                if j < state.made.len() {
                    assert(state.made[i].1 == state.made[j].0);
                } else {
                    assert(state.made[i] == state.made.last());
                }
            }
        }
    }
}

impl RwsSlice {
    /// Splits the ranges into sub-ranges of about `mean` bytes each.
    ///
    /// The ranges are gathered one after the other until their bytes reach
    /// `mean`; this makes a sub-range, and the gathering begins again with
    /// the next range. What is left over at the end makes a last sub-range,
    /// so that every range lies in a sub-range. Every sub-range takes
    /// in the key at which it starts; only the last takes in the key at
    /// which it ends. Ranges without bytes give no sub-range at all.
    pub fn split(&self, mean: usize) -> (res: Vec<KeyRange>)
        ensures
            res@.len() == split_pairs(self.ranges@, self.total_size, mean).len(),
            forall|i: int|
                0 <= i < res@.len() ==> range_view(#[trigger] res@[i]) == bounds_of(
                    split_pairs(self.ranges@, self.total_size, mean)[i],
                    i,
                    res@.len() as int,
                ),
    {
        let mut res: Vec<KeyRange> = Vec::new();
        if self.total_size == 0 || self.ranges.len() == 0 {
            return res;
        }
        let ghost start = SplitState {
            made: Seq::empty(),
            open: false,
            gathered: 0,
            first_key: Seq::empty(),
        };
        let mut open = false;
        let mut acc_size: usize = 0;
        let mut first_key: Vec<u8> = Vec::new();
        let mut i: usize = 0;
        assert(made_of(res@) =~= Seq::empty());
        while i < self.ranges.len()
            invariant
                i <= self.ranges@.len(),
                split_from(self.ranges@, mean, 0, start) == split_from(
                    self.ranges@,
                    mean,
                    i as int,
                    SplitState {
                        made: made_of(res@),
                        open,
                        gathered: acc_size,
                        first_key: first_key@,
                    },
                ),
                forall|j: int|
                    0 <= j < res@.len() ==> (#[trigger] res@[j]).0 is Included && res@[j].1
                        is Excluded,
            decreases self.ranges@.len() - i,
        {
            let rws = &self.ranges[i];
            let ghost made = made_of(res@);
            if !open {
                first_key = rws.smallest_key.clone();
            }
            acc_size = acc_size.saturating_add(rws.size);
            if acc_size >= mean {
                res.push(
                    (Bound::Included(first_key.clone()), Bound::Excluded(rws.biggest_key.clone())),
                );
                acc_size = 0;
                open = false;
                assert(made_of(res@) =~= made.push((first_key@, rws.biggest_key@)));
            } else {
                open = true;
                assert(made_of(res@) =~= made);
            }
            i += 1;
        }
        let ghost pairs = split_pairs(self.ranges@, self.total_size, mean);
        if open {
            let last = self.ranges.len() - 1;
            res.push(
                (Bound::Included(first_key), Bound::Included(self.ranges[last].biggest_key.clone())),
            );
        } else {
            match res.pop() {
                Some((lower, Bound::Excluded(key))) => {
                    res.push((lower, Bound::Included(key)));
                },
                Some(other) => {
                    res.push(other);
                },
                None => {},
            }
        }
        assert(res@.len() == pairs.len());
        assert forall|j: int| 0 <= j < res@.len() implies range_view(#[trigger] res@[j])
            == bounds_of(pairs[j], j, res@.len() as int) by {}
        res
    }
}

} // verus!

verus! {

/// The keys grow strictly.
pub open spec fn keys_sorted(keys: Seq<Vec<u8>>) -> bool {
    forall|i: int, j: int| 0 <= i < j < keys.len() ==> key_lt(#[trigger] keys[i]@, #[trigger] keys[j]@)
}

/// The key is among the keys.
pub open spec fn holds_key(keys: Seq<Vec<u8>>, key: Seq<u8>) -> bool {
    exists|i: int| 0 <= i < keys.len() && (#[trigger] keys[i])@ == key
}

/// Puts a key among sorted keys, unless it is among them.
pub fn insert_key(keys: &mut Vec<Vec<u8>>, key: &[u8])
    requires
        keys_sorted(old(keys)@),
    ensures
        keys_sorted(final(keys)@),
        forall|k: Seq<u8>|
            #![trigger holds_key(final(keys)@, k)]
            holds_key(final(keys)@, k) <==> holds_key(old(keys)@, k) || k == key@,
{
    let mut at: usize = 0;
    while at < keys.len() && compare_keys(keys[at].as_slice(), key) == KeyOrder::Less
        invariant
            at <= keys@.len(),
            *keys == *old(keys),
            forall|k: int| 0 <= k < at ==> key_lt((#[trigger] keys@[k])@, key@),
        decreases keys@.len() - at,
    {
        at += 1;
    }
    let ghost before = keys@;
    if at < keys.len() && compare_keys(keys[at].as_slice(), key) == KeyOrder::Equal {
        assert forall|k: Seq<u8>| #![trigger holds_key(keys@, k)]
            holds_key(keys@, k) <==> holds_key(before, k) || k == key@ by {
            if k == key@ {
                assert(keys@[at as int]@ == k);
            }
        }
        return ;
    }
    keys.insert(at, vstd::slice::slice_to_vec(key));
    proof {
        assert forall|i: int, j: int| 0 <= i < j < keys@.len() implies key_lt(
            #[trigger] keys@[i]@,
            #[trigger] keys@[j]@,
        ) by {
            let i0 = if i < at { i } else { i - 1 };
            let j0 = if j < at { j } else { j - 1 };
            if i == at {
                assert(keys@[j] == before[j - 1]);
                crate::key::lemma_key_trichotomy(before[at as int]@, key@);
                if j - 1 > at {
                    assert(key_lt(before[at as int]@, before[j - 1]@));
                    lemma_key_lt_transitive(key@, before[at as int]@, before[j - 1]@);
                }
            } else if j == at {
                assert(keys@[i] == before[i]);
            } else {
                assert(keys@[i] == before[i0] && keys@[j] == before[j0]);
            }
        }
        assert forall|k: Seq<u8>| #![trigger holds_key(keys@, k)]
            holds_key(keys@, k) <==> holds_key(before, k) || k == key@ by {
            if holds_key(keys@, k) {
                let i = choose|i: int| 0 <= i < keys@.len() && (#[trigger] keys@[i])@ == k;
                if i < at {
                    assert(before[i]@ == k);
                } else if i > at {
                    assert(before[i - 1]@ == k);
                }
            }
            if holds_key(before, k) {
                let i = choose|i: int| 0 <= i < before.len() && (#[trigger] before[i])@ == k;
                let i1 = if i < at { i } else { i + 1 };
                assert(keys@[i1]@ == k);
            }
            if k == key@ {
                assert(keys@[at as int]@ == k);
            }
        }
    }
}

/// The key is one at which a compaction of the task may be split: the first
/// key of one of its tables, the last key of one of the tables of level 0,
/// or the last key of the last table of the next level.
pub open spec fn is_boundary(task: Task, key: Seq<u8>) -> bool {
    ||| exists|i: int|
        0 <= i < task.this_tables@.len() && (#[trigger] task.this_tables@[i]).smallest() == key
    ||| task.this_level_id == 0 && exists|i: int|
        0 <= i < task.this_tables@.len() && (#[trigger] task.this_tables@[i]).biggest() == key
    ||| exists|i: int|
        0 <= i < task.next_tables@.len() && (#[trigger] task.next_tables@[i]).smallest() == key
    ||| task.next_tables@.len() > 0 && task.next_tables@.last().biggest() == key
}

/// There are no two keys at which a compaction of the task may be split.
pub open spec fn one_boundary(task: Task) -> bool {
    forall|a: Seq<u8>, b: Seq<u8>|
        #[trigger] is_boundary(task, a) && #[trigger] is_boundary(task, b) ==> a == b
}

/// The bytes that the first `upto` of the tables have between the two keys,
/// all together; the largest number where they are more.
pub open spec fn bytes_between(
    tables: Seq<Arc<SsTable>>,
    lower: Seq<u8>,
    upper: Seq<u8>,
    upto: int,
) -> usize
    decreases upto,
{
    if upto <= 0 {
        0
    } else {
        capped_sum(
            bytes_between(tables, lower, upper, upto - 1),
            tables[upto - 1].overlap(lower, upper) as usize,
        )
    }
}

/// The sizes of the first `upto` ranges, all together; the largest number
/// where they are more.
pub open spec fn sizes_sum(ranges: Seq<RangeWithSize>, upto: int) -> usize
    decreases upto,
{
    if upto <= 0 {
        0
    } else {
        capped_sum(sizes_sum(ranges, upto - 1), ranges[upto - 1].size)
    }
}

/// The bytes that the tables have between the two keys, all together.
fn size_between(tables: &Vec<Arc<SsTable>>, lower: &[u8], upper: &[u8]) -> (size: usize)
    requires
        forall|i: int| 0 <= i < tables@.len() ==> (#[trigger] tables@[i]).wf(),
    ensures
        size == bytes_between(tables@, lower@, upper@, tables@.len() as int),
{
    let mut size: usize = 0;
    let mut i: usize = 0;
    while i < tables.len()
        invariant
            i <= tables@.len(),
            forall|k: int| 0 <= k < tables@.len() ==> (#[trigger] tables@[k]).wf(),
            size == bytes_between(tables@, lower@, upper@, i as int),
        decreases tables@.len() - i,
    {
        assert(tables@[i as int].wf());
        size = size.saturating_add(tables[i].overlap_size(lower, upper));
        i += 1;
    }
    size
}

impl RwsSlice {
    /// The ranges between the keys at which a compaction of the task may be
    /// split, each with the bytes that the tables of the task have in it.
    ///
    /// The ranges stand in the order of their keys, each begins where the
    /// one before it ends, and the keys at which they begin and end are all
    /// the keys at which the compaction may be split. There is no range
    /// where there are no two such keys.
    #[verifier::spinoff_prover]
    pub fn create(task: &Task) -> (slice: RwsSlice)
        requires
            task.wf(),
        ensures
            forall|i: int|
                0 <= i < slice.ranges@.len() ==> {
                    let range = #[trigger] slice.ranges@[i];
                    &&& key_lt(range.smallest_key@, range.biggest_key@)
                    &&& is_boundary(*task, range.smallest_key@)
                    &&& is_boundary(*task, range.biggest_key@)
                    &&& range.size == capped_sum(
                        bytes_between(
                            task.this_tables@,
                            range.smallest_key@,
                            range.biggest_key@,
                            task.this_tables@.len() as int,
                        ),
                        bytes_between(
                            task.next_tables@,
                            range.smallest_key@,
                            range.biggest_key@,
                            task.next_tables@.len() as int,
                        ),
                    )
                },
            adjacent(slice.ranges@),
            forall|key: Seq<u8>|
                is_boundary(*task, key) && slice.ranges@.len() > 0 ==> key
                    == slice.ranges@[0].smallest_key@ || exists|i: int|
                    0 <= i < slice.ranges@.len() && (#[trigger] slice.ranges@[i]).biggest_key@
                        == key,
            slice.total_size == sizes_sum(slice.ranges@, slice.ranges@.len() as int),
            slice.ranges@.len() == 0 <==> one_boundary(*task),
    {
        let mut set: Vec<Vec<u8>> = Vec::new();
        let mut i: usize = 0;
        while i < task.this_tables.len()
            invariant
                i <= task.this_tables@.len(),
                keys_sorted(set@),
                forall|k: Seq<u8>|
                    #![trigger holds_key(set@, k)]
                    holds_key(set@, k) <==> (exists|j: int|
                        0 <= j < i && (#[trigger] task.this_tables@[j]).smallest() == k)
                        || task.this_level_id == 0 && (exists|j: int|
                        0 <= j < i && (#[trigger] task.this_tables@[j]).biggest() == k),
            decreases task.this_tables@.len() - i,
        {
            let table = &task.this_tables[i];
            let ghost before = set@;
            insert_key(&mut set, table.smallest_key());
            let ghost between = set@;
            if task.this_level_id == 0 {
                insert_key(&mut set, table.biggest_key());
            }
            proof {
                assert forall|k: Seq<u8>|
                    #![trigger holds_key(set@, k)]
                    holds_key(set@, k) <==> (exists|j: int|
                        0 <= j < i + 1 && (#[trigger] task.this_tables@[j]).smallest() == k)
                        || task.this_level_id == 0 && (exists|j: int|
                        0 <= j < i + 1 && (#[trigger] task.this_tables@[j]).biggest() == k) by {
                    assert(holds_key(between, k) <==> holds_key(before, k) || k == table.smallest());
                    assert(holds_key(before, k) <==> (exists|j: int|
                        0 <= j < i && (#[trigger] task.this_tables@[j]).smallest() == k)
                        || task.this_level_id == 0 && (exists|j: int|
                        0 <= j < i && (#[trigger] task.this_tables@[j]).biggest() == k));
                    if holds_key(set@, k) {
                        if k == table.smallest() || (task.this_level_id == 0 && k
                            == table.biggest()) {
                            assert(task.this_tables@[i as int].smallest() == k || (
                            task.this_level_id == 0 && task.this_tables@[i as int].biggest() == k));
                        } else {
                            assert(holds_key(before, k));
                        }
                    }
                    if exists|j: int|
                        0 <= j < i + 1 && (#[trigger] task.this_tables@[j]).smallest() == k {
                        let j = choose|j: int|
                            0 <= j < i + 1 && (#[trigger] task.this_tables@[j]).smallest() == k;
                        if j < i {
                            assert(holds_key(before, k));
                        }
                    }
                    if task.this_level_id == 0 && exists|j: int|
                        0 <= j < i + 1 && (#[trigger] task.this_tables@[j]).biggest() == k {
                        let j = choose|j: int|
                            0 <= j < i + 1 && (#[trigger] task.this_tables@[j]).biggest() == k;
                        if j < i {
                            assert(holds_key(before, k));
                        }
                    }
                }
            }
            i += 1;
        }
        let ghost from_this = set@;
        let mut i: usize = 0;
        while i < task.next_tables.len()
            invariant
                i <= task.next_tables@.len(),
                keys_sorted(set@),
                forall|k: Seq<u8>|
                    #![trigger holds_key(set@, k)]
                    holds_key(set@, k) <==> holds_key(from_this, k) || exists|j: int|
                        0 <= j < i && (#[trigger] task.next_tables@[j]).smallest() == k,
                forall|k: Seq<u8>|
                    #![trigger holds_key(from_this, k)]
                    holds_key(from_this, k) <==> (exists|j: int|
                        0 <= j < task.this_tables@.len() && (
                        #[trigger] task.this_tables@[j]).smallest() == k) || task.this_level_id
                        == 0 && (exists|j: int|
                        0 <= j < task.this_tables@.len() && (
                        #[trigger] task.this_tables@[j]).biggest() == k),
            decreases task.next_tables@.len() - i,
        {
            let ghost before = set@;
            insert_key(&mut set, task.next_tables[i].smallest_key());
            proof {
                assert forall|k: Seq<u8>|
                    #![trigger holds_key(set@, k)]
                    holds_key(set@, k) <==> holds_key(from_this, k) || exists|j: int|
                        0 <= j < i + 1 && (#[trigger] task.next_tables@[j]).smallest() == k by {
                    assert(holds_key(before, k) <==> holds_key(from_this, k) || exists|j: int|
                        0 <= j < i && (#[trigger] task.next_tables@[j]).smallest() == k);
                    if holds_key(set@, k) && !holds_key(before, k) {
                        assert(task.next_tables@[i as int].smallest() == k);
                    }
                    if exists|j: int|
                        0 <= j < i + 1 && (#[trigger] task.next_tables@[j]).smallest() == k {
                        let j = choose|j: int|
                            0 <= j < i + 1 && (#[trigger] task.next_tables@[j]).smallest() == k;
                        if j < i {
                            assert(holds_key(before, k));
                        }
                    }
                }
            }
            i += 1;
        }
        let ghost from_next = set@;
        if task.next_tables.len() > 0 {
            let last = task.next_tables.len() - 1;
            insert_key(&mut set, task.next_tables[last].biggest_key());
        }
        assert forall|k: Seq<u8>| #![trigger holds_key(set@, k)]
            holds_key(set@, k) <==> is_boundary(*task, k) by {
            assert(holds_key(from_next, k) <==> holds_key(from_this, k) || exists|j: int|
                0 <= j < task.next_tables@.len() && (#[trigger] task.next_tables@[j]).smallest()
                    == k);
            assert(holds_key(from_this, k) <==> (exists|j: int|
                0 <= j < task.this_tables@.len() && (#[trigger] task.this_tables@[j]).smallest()
                    == k) || task.this_level_id == 0 && (exists|j: int|
                0 <= j < task.this_tables@.len() && (#[trigger] task.this_tables@[j]).biggest()
                    == k));
            if task.next_tables@.len() > 0 {
                assert(task.next_tables@.last() == task.next_tables@[task.next_tables@.len() - 1]);
                assert(holds_key(set@, k) <==> holds_key(from_next, k) || k
                    == task.next_tables@.last().biggest());
            }
        }
        let mut ranges: Vec<RangeWithSize> = Vec::new();
        let mut total_size: usize = 0;
        let mut i: usize = 0;
        proof {
            assert forall|k: int| 0 <= k < task.this_tables@.len() implies (
            #[trigger] task.this_tables@[k]).wf() by {
                assert(task.tables()[k] == task.this_tables@[k]);
            }
            assert forall|k: int| 0 <= k < task.next_tables@.len() implies (
            #[trigger] task.next_tables@[k]).wf() by {
                assert(task.tables()[task.this_tables@.len() + k] == task.next_tables@[k]);
            }
        }
        while set.len() > 0 && i < set.len() - 1
            invariant
                i < set@.len() || (set@.len() == 0 && i == 0),
                keys_sorted(set@),
                forall|k: Seq<u8>| #![trigger holds_key(set@, k)]
                    holds_key(set@, k) <==> is_boundary(*task, k),
                forall|k: int|
                    0 <= k < task.this_tables@.len() ==> (#[trigger] task.this_tables@[k]).wf(),
                forall|k: int|
                    0 <= k < task.next_tables@.len() ==> (#[trigger] task.next_tables@[k]).wf(),
                ranges@.len() == i,
                total_size == sizes_sum(ranges@, i as int),
                forall|k: int|
                    0 <= k < i ==> {
                        let range = #[trigger] ranges@[k];
                        &&& range.smallest_key@ == set@[k]@
                        &&& range.biggest_key@ == set@[k + 1]@
                        &&& range.size == capped_sum(
                            bytes_between(
                                task.this_tables@,
                                range.smallest_key@,
                                range.biggest_key@,
                                task.this_tables@.len() as int,
                            ),
                            bytes_between(
                                task.next_tables@,
                                range.smallest_key@,
                                range.biggest_key@,
                                task.next_tables@.len() as int,
                            ),
                        )
                    },
            decreases set@.len() - i,
        {
            let lower = set[i].clone();
            let upper = set[i + 1].clone();
            assert(lower@ == set@[i as int]@ && upper@ == set@[i + 1]@);
            let size = size_between(&task.this_tables, lower.as_slice(), upper.as_slice()).saturating_add(
                size_between(&task.next_tables, lower.as_slice(), upper.as_slice()),
            );
            total_size = total_size.saturating_add(size);
            let ghost before = ranges@;
            ranges.push(RangeWithSize { smallest_key: lower, biggest_key: upper, size });
            proof {
                assert forall|k: int| 0 <= k < i + 1 implies sizes_sum(ranges@, k) == sizes_sum(
                    before,
                    k,
                ) by {
                    lemma_sizes_sum_prefix(before, ranges@, k);
                }
            }
            i += 1;
        }
        proof {
            assert forall|k: int| 0 <= k < ranges@.len() implies {
                let range = #[trigger] ranges@[k];
                &&& key_lt(range.smallest_key@, range.biggest_key@)
                &&& is_boundary(*task, range.smallest_key@)
                &&& is_boundary(*task, range.biggest_key@)
            } by {
                assert(key_lt(set@[k]@, set@[k + 1]@));
                assert(holds_key(set@, set@[k]@));
                assert(holds_key(set@, set@[k + 1]@));
            }
            assert forall|i: int, j: int|
                0 <= i && j == i + 1 && j < ranges@.len() implies (#[trigger] ranges@[i]).biggest_key@
                == (#[trigger] ranges@[j]).smallest_key@ by {
                assert(ranges@[i].biggest_key@ == set@[j]@);
            }
            assert forall|key: Seq<u8>|
                is_boundary(*task, key) && ranges@.len() > 0 implies key
                == ranges@[0].smallest_key@ || exists|k: int|
                0 <= k < ranges@.len() && (#[trigger] ranges@[k]).biggest_key@ == key by {
                assert(holds_key(set@, key));
                let at = choose|at: int| 0 <= at < set@.len() && (#[trigger] set@[at])@ == key;
                if at > 0 {
                    assert(ranges@[at - 1].biggest_key@ == key);
                }
            }
            if ranges@.len() == 0 {
                assert forall|a: Seq<u8>, b: Seq<u8>|
                    #[trigger] is_boundary(*task, a) && #[trigger] is_boundary(
                        *task,
                        b,
                    ) implies a == b by {
                    assert(holds_key(set@, a));
                    assert(holds_key(set@, b));
                }
            } else {
                assert(is_boundary(*task, ranges@[0].smallest_key@));
                assert(is_boundary(*task, ranges@[0].biggest_key@));
                crate::key::lemma_key_lt_irreflexive(ranges@[0].smallest_key@);
            }
        }
        RwsSlice { ranges, total_size }
    }
}

/// The sum of the sizes of the first ranges does not depend on the ranges
/// behind them.
proof fn lemma_sizes_sum_prefix(a: Seq<RangeWithSize>, b: Seq<RangeWithSize>, upto: int)
    requires
        0 <= upto <= a.len() <= b.len(),
        forall|k: int| 0 <= k < a.len() ==> a[k] == b[k],
    ensures
        sizes_sum(a, upto) == sizes_sum(b, upto),
    decreases upto,
{
    if upto > 0 {
        lemma_sizes_sum_prefix(a, b, upto - 1);
    }
}

} // verus!

verus! {

/// Every range ends behind the key at which it begins.
pub open spec fn ascending(ranges: Seq<RangeWithSize>) -> bool {
    forall|i: int|
        0 <= i < ranges.len() ==> key_lt(
            (#[trigger] ranges[i]).smallest_key@,
            ranges[i].biggest_key@,
        )
}

/// Every sub-range ends behind the key at which it begins.
pub open spec fn pairs_ascending(made: Seq<(Seq<u8>, Seq<u8>)>) -> bool {
    forall|i: int| 0 <= i < made.len() ==> key_lt((#[trigger] made[i]).0, made[i].1)
}

/// Each sub-range begins where the one before it ends.
pub open spec fn linked(made: Seq<(Seq<u8>, Seq<u8>)>) -> bool {
    forall|i: int, j: int|
        0 <= i && j == i + 1 && j < made.len() ==> (#[trigger] made[i]).1 == (#[trigger] made[j]).0
}

/// The ranges as pairs of the keys at which they begin and end.
pub open spec fn pairs_of(ranges: Seq<RangeWithSize>) -> Seq<(Seq<u8>, Seq<u8>)> {
    Seq::new(ranges.len(), |j: int| (ranges[j].smallest_key@, ranges[j].biggest_key@))
}

/// Of sub-ranges that stand one behind the other, none begins before the
/// first begins, and each ends behind that key.
pub proof fn lemma_linked_start(made: Seq<(Seq<u8>, Seq<u8>)>, i: int)
    requires
        pairs_ascending(made),
        linked(made),
        0 <= i < made.len(),
    ensures
        crate::key::key_le(made[0].0, made[i].0),
        key_lt(made[0].0, made[i].1),
    decreases i,
{
    if i > 0 {
        lemma_linked_start(made, i - 1);
        assert(made[i - 1].1 == made[i].0);
        assert(key_lt(made[i].0, made[i].1));
        lemma_key_lt_transitive(made[0].0, made[i].0, made[i].1);
    }
}

/// Of sub-ranges that stand one behind the other, none ends behind the
/// last.
pub proof fn lemma_linked_end(made: Seq<(Seq<u8>, Seq<u8>)>, i: int)
    requires
        pairs_ascending(made),
        linked(made),
        0 <= i < made.len(),
    ensures
        crate::key::key_le(made[i].1, made.last().1),
    decreases made.len() - i,
{
    if i < made.len() - 1 {
        lemma_linked_end(made, i + 1);
        assert(made[i].1 == made[i + 1].0);
        assert(key_lt(made[i + 1].0, made[i + 1].1));
        crate::key::lemma_key_lt_le(made[i].1, made[i + 1].1, made.last().1);
    }
}

/// What holds of the state of a split at range number `from`: every
/// sub-range made ends behind the key at which it begins, and so does what
/// is gathered.
pub open spec fn split_rising(ranges: Seq<RangeWithSize>, from: int, state: SplitState) -> bool {
    &&& pairs_ascending(state.made)
    &&& state.open ==> from > 0 && key_lt(state.first_key, ranges[from - 1].biggest_key@)
}

proof fn lemma_split_rising(ranges: Seq<RangeWithSize>, mean: usize, from: int, state: SplitState)
    requires
        adjacent(ranges),
        ascending(ranges),
        ranges.len() > 0,
        0 <= from <= ranges.len(),
        split_rising(ranges, from, state),
    ensures
        ({
            let end = split_from(ranges, mean, from, state);
            pairs_ascending(end.made) && (end.open ==> key_lt(
                end.first_key,
                ranges.last().biggest_key@,
            ))
        }),
    decreases ranges.len() - from,
{
    if from < ranges.len() {
        let first_key = if state.open {
            state.first_key
        } else {
            ranges[from].smallest_key@
        };
        assert(key_lt(ranges[from].smallest_key@, ranges[from].biggest_key@));
        if state.open {
            assert(ranges[from - 1].biggest_key@ == ranges[from].smallest_key@);
            lemma_key_lt_transitive(
                state.first_key,
                ranges[from].smallest_key@,
                ranges[from].biggest_key@,
            );
        }
        let gathered = capped_sum(state.gathered, ranges[from].size);
        if gathered >= mean {
            let next = SplitState {
                made: state.made.push((first_key, ranges[from].biggest_key@)),
                open: false,
                gathered: 0,
                first_key,
            };
            assert forall|i: int| 0 <= i < next.made.len() implies key_lt(
                (#[trigger] next.made[i]).0,
                next.made[i].1,
            ) by {
                if i < state.made.len() {
                    assert(next.made[i] == state.made[i]);
                }
            }
            lemma_split_rising(ranges, mean, from + 1, next);
        } else {
            let next = SplitState { made: state.made, open: true, gathered, first_key };
            lemma_split_rising(ranges, mean, from + 1, next);
        }
    } else {
        if state.open {
            assert(ranges[from - 1] == ranges.last());
        }
    }
}

/// Each sub-range of a split of ranges that stand one behind the other
/// ends behind the key at which it begins.
pub proof fn lemma_split_ascending(ranges: Seq<RangeWithSize>, total_size: usize, mean: usize)
    requires
        adjacent(ranges),
        ascending(ranges),
    ensures
        pairs_ascending(split_pairs(ranges, total_size, mean)),
{
    if total_size != 0 && ranges.len() != 0 {
        let start = SplitState {
            made: Seq::empty(),
            open: false,
            gathered: 0,
            first_key: Seq::empty(),
        };
        lemma_split_rising(ranges, mean, 0, start);
        let end = split_from(ranges, mean, 0, start);
        if end.open {
            let made = end.made.push((end.first_key, ranges.last().biggest_key@));
            assert forall|i: int| 0 <= i < made.len() implies key_lt(
                (#[trigger] made[i]).0,
                made[i].1,
            ) by {
                if i < end.made.len() {
                    assert(made[i] == end.made[i]);
                }
            }
        }
    }
}

/// The sub-ranges take in the keys from `lower` to `upper`, each key once:
/// they stand one behind the other, the first begins at `lower`, the last
/// ends at `upper`, and only the last takes in the key at which it ends.
pub open spec fn spans(res: Seq<KeyRange>, lower: Seq<u8>, upper: Seq<u8>) -> bool {
    &&& res.len() > 0
    &&& bound_key(res[0].0) == lower
    &&& res.last().1 is Included
    &&& bound_key(res.last().1) == upper
    &&& forall|i: int|
        0 <= i < res.len() ==> {
            let r = #[trigger] res[i];
            &&& r.0 is Included
            &&& !(r.1 is Unbounded)
            &&& crate::key::key_le(lower, bound_key(r.0))
            &&& crate::key::key_le(bound_key(r.0), bound_key(r.1))
        }
    &&& forall|i: int, j: int|
        0 <= i && j == i + 1 && j < res.len() ==> (#[trigger] res[i]).1 is Excluded && bound_key(
            res[i].1,
        ) == bound_key((#[trigger] res[j]).0)
}

/// The bound up to which the sub-ranges before number `i` reach.
pub open spec fn reach(res: Seq<KeyRange>, i: int, lower: Seq<u8>) -> Bound<Seq<u8>> {
    if i <= 0 {
        Bound::Excluded(lower)
    } else {
        crate::lsm_iterator::end_view(res[i - 1].1)
    }
}

/// The sub-ranges of a split of ranges that stand one behind the other
/// take in the keys from the start of the first range to the end of the
/// last, each key once.
pub proof fn lemma_split_spans(
    ranges: Seq<RangeWithSize>,
    total_size: usize,
    mean: usize,
    res: Seq<KeyRange>,
)
    requires
        adjacent(ranges),
        ascending(ranges),
        res.len() > 0,
        res.len() == split_pairs(ranges, total_size, mean).len(),
        forall|i: int|
            0 <= i < res.len() ==> range_view(#[trigger] res[i]) == bounds_of(
                split_pairs(ranges, total_size, mean)[i],
                i,
                res.len() as int,
            ),
    ensures
        ranges.len() > 0,
        spans(res, ranges[0].smallest_key@, ranges.last().biggest_key@),
{
    let pairs = split_pairs(ranges, total_size, mean);
    lemma_split_covers(ranges, total_size, mean);
    lemma_split_ascending(ranges, total_size, mean);
    let lower = ranges[0].smallest_key@;
    let n = res.len() as int;
    assert(linked(pairs));
    assert forall|i: int| 0 <= i < n implies {
        let r = #[trigger] res[i];
        &&& r.0 is Included
        &&& bound_key(r.0) == pairs[i].0
        &&& bound_key(r.1) == pairs[i].1
        &&& (i == n - 1 ==> r.1 is Included)
        &&& (i != n - 1 ==> r.1 is Excluded)
        &&& crate::key::key_le(lower, bound_key(r.0))
        &&& crate::key::key_le(bound_key(r.0), bound_key(r.1))
    } by {
        assert(range_view(res[i]) == bounds_of(pairs[i], i, n));
        lemma_linked_start(pairs, i);
        assert(key_lt(pairs[i].0, pairs[i].1));
    }
    assert(res.last() == res[n - 1]);
    assert(pairs.last() == pairs[n - 1]);
    assert forall|i: int, j: int| 0 <= i && j == i + 1 && j < res.len() implies (
    #[trigger] res[i]).1 is Excluded && bound_key(res[i].1) == bound_key((#[trigger] res[j]).0) by {
        assert(pairs[i].1 == pairs[j].0);
    }
}

/// One sub-range from the start of the first range to the end of the last
/// takes in the keys between them, each key once.
pub proof fn lemma_whole_spans(ranges: Seq<RangeWithSize>, res: Seq<KeyRange>)
    requires
        adjacent(ranges),
        ascending(ranges),
        ranges.len() > 0,
        res.len() == 1,
        range_view(res[0]) == (
            Bound::Included(ranges[0].smallest_key@),
            Bound::Included(ranges.last().biggest_key@),
        ),
    ensures
        spans(res, ranges[0].smallest_key@, ranges.last().biggest_key@),
{
    let pairs = pairs_of(ranges);
    assert(pairs_ascending(pairs));
    assert(linked(pairs)) by {
        assert forall|i: int, j: int| 0 <= i && j == i + 1 && j < pairs.len() implies (
        #[trigger] pairs[i]).1 == (#[trigger] pairs[j]).0 by {
            assert(ranges[i].biggest_key@ == ranges[j].smallest_key@);
        }
    }
    lemma_linked_start(pairs, pairs.len() - 1);
    assert(pairs[pairs.len() - 1].1 == ranges.last().biggest_key@);
}

/// Every key at which a compaction may be split lies between the start of
/// the first of the ranges between those keys and the end of the last.
pub proof fn lemma_boundary_span(task: Task, ranges: Seq<RangeWithSize>, key: Seq<u8>)
    requires
        adjacent(ranges),
        ascending(ranges),
        ranges.len() > 0,
        key == ranges[0].smallest_key@ || exists|i: int|
            0 <= i < ranges.len() && (#[trigger] ranges[i]).biggest_key@ == key,
    ensures
        crate::key::key_le(ranges[0].smallest_key@, key),
        crate::key::key_le(key, ranges.last().biggest_key@),
{
    let pairs = pairs_of(ranges);
    assert(pairs_ascending(pairs));
    assert(linked(pairs)) by {
        assert forall|i: int, j: int| 0 <= i && j == i + 1 && j < pairs.len() implies (
        #[trigger] pairs[i]).1 == (#[trigger] pairs[j]).0 by {
            assert(ranges[i].biggest_key@ == ranges[j].smallest_key@);
        }
    }
    assert(pairs.last().1 == ranges.last().biggest_key@);
    if key == ranges[0].smallest_key@ {
        lemma_linked_start(pairs, pairs.len() - 1);
    } else {
        let i = choose|i: int| 0 <= i < ranges.len() && (#[trigger] ranges[i]).biggest_key@ == key;
        lemma_linked_start(pairs, i);
        lemma_linked_end(pairs, i);
    }
}

} // verus!

