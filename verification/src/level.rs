//! The levels of tables: lookups, the choice of compactions, and the
//! installation of their results.
//!
//! Level 0 holds the tables that flushes made, the newest last; their
//! ranges of keys may overlap. Each deeper level holds tables in the order
//! of their first keys.

pub mod order;
pub mod preserve;
pub mod range;
pub mod task;

use crate::error::LsmError;
use crate::foreign::share;
use crate::iterators::merge_iterator::{all_empty, is_first, merged, MergeIterator};
use crate::iterators::StorageIterator;
use crate::key::{
    compare_keys, hit, key_le, key_lt, lemma_key_le_not_gt, lemma_key_lt_irreflexive,
    lemma_key_lt_le, lemma_key_lt_transitive, lemma_seek_hit, seeked, value_in, KeyOrder,
};
use crate::manifest::{applied_all, Change, ManifestChangeSet, ManifestFile, Operation};
use crate::opt::LsmOptions;
use crate::table::builder::SsTableBuilder;
use crate::table::file_object::FileObject;
use crate::table::iterator::SsTableIterator;
use crate::table::SsTable;
use order::{
    ids_distinct, in_creation_order, in_order, lemma_distinct_rearranged, lemma_same_elements,
    sort_tables, TableOrder,
};
use range::RwsSlice;
use task::{Score, Task, TaskPriority};
use std::collections::HashSet;
use std::ops::Bound;
use std::sync::Arc;
use vstd::prelude::*;

verus! {

broadcast use vstd::std_specs::hash::group_hash_axioms;

/// The most levels that an engine has.
pub const MAX_LEVEL: usize = 6;

/// The tables of a level, the newest first.
pub open spec fn newest_first(tables: Seq<Arc<SsTable>>) -> Seq<Arc<SsTable>> {
    Seq::new(tables.len(), |j: int| tables[tables.len() - 1 - j])
}

/// The value that the first of the tables from number `from` on that has
/// the key has for it.
pub open spec fn first_value(tables: Seq<Arc<SsTable>>, key: Seq<u8>, from: int) -> Option<Seq<u8>>
    decreases tables.len() - from,
{
    if from < 0 || from >= tables.len() {
        None
    } else {
        match tables[from].value_of(key) {
            Some(value) => Some(value),
            None => first_value(tables, key, from + 1),
        }
    }
}

/// Where the binary search for `key` over the first keys of the tables from
/// `left` to `right` ends: at each step it looks at the middle and goes
/// right of it where the first key there is the key or sorts before it.
pub open spec fn table_search_end(
    tables: Seq<Arc<SsTable>>,
    key: Seq<u8>,
    left: int,
    right: int,
) -> int
    decreases right - left,
{
    if left >= right {
        left
    } else {
        let mid = left + (right - left) / 2;
        if key_le(tables[mid].smallest(), key) {
            table_search_end(tables, key, mid + 1, right)
        } else {
            table_search_end(tables, key, left, mid)
        }
    }
}

/// The table of a level that a lookup of `key` reads: the one before the
/// place where the search ends, and the first where it ends at the start.
pub open spec fn picked_table(tables: Seq<Arc<SsTable>>, key: Seq<u8>) -> int {
    let end = table_search_end(tables, key, 0, tables.len() as int);
    if end == 0 {
        0
    } else {
        end - 1
    }
}

/// The value that a level below level 0 has for the key: that of the table
/// that a lookup reads.
pub open spec fn level_value(tables: Seq<Arc<SsTable>>, key: Seq<u8>) -> Option<Seq<u8>> {
    if tables.len() == 0 {
        None
    } else {
        tables[picked_table(tables, key)].value_of(key)
    }
}

/// The value that the first of the levels from number `from` on that has
/// the key has for it.
pub open spec fn deeper_value(levels: Seq<Seq<Arc<SsTable>>>, key: Seq<u8>, from: int) -> Option<
    Seq<u8>,
>
    decreases levels.len() - from,
{
    if from < 0 || from >= levels.len() {
        None
    } else {
        match level_value(levels[from], key) {
            Some(value) => Some(value),
            None => deeper_value(levels, key, from + 1),
        }
    }
}

/// The value that the levels have stored for the key: that of the newest
/// table of level 0 that has the key, else that of the first deeper level
/// that has it.
pub open spec fn stored_value(levels: Seq<Seq<Arc<SsTable>>>, key: Seq<u8>) -> Option<Seq<u8>> {
    match first_value(newest_first(levels[0]), key, 0) {
        Some(value) => Some(value),
        None => deeper_value(levels, key, 1),
    }
}

/// What a reader is shown of a stored value: nothing where the value is
/// empty, which marks a key that was deleted.
pub open spec fn shown(stored: Option<Seq<u8>>) -> Option<Seq<u8>> {
    match stored {
        Some(value) => if value.len() == 0 {
            None
        } else {
            Some(value)
        },
        None => None,
    }
}

/// No table from number `from` on has the key.
pub proof fn lemma_first_value_none(tables: Seq<Arc<SsTable>>, key: Seq<u8>, from: int)
    requires
        forall|j: int| from <= j < tables.len() ==> (#[trigger] tables[j]).value_of(key) is None,
    ensures
        first_value(tables, key, from) is None,
    decreases tables.len() - from,
{
    if 0 <= from < tables.len() {
        lemma_first_value_none(tables, key, from + 1);
    }
}

/// The first table from number `from` on that has the key is table `at`.
pub proof fn lemma_first_value_at(tables: Seq<Arc<SsTable>>, key: Seq<u8>, from: int, at: int)
    requires
        0 <= from <= at < tables.len(),
        forall|j: int| from <= j < at ==> (#[trigger] tables[j]).value_of(key) is None,
        tables[at].value_of(key) is Some,
    ensures
        first_value(tables, key, from) == tables[at].value_of(key),
    decreases at - from,
{
    if from < at {
        lemma_first_value_at(tables, key, from + 1, at);
    }
}

/// Where every source of a merge is what a seek for `key` in a sorted table
/// has left, the merge starts with the key exactly where a table has it,
/// and then with the value of the first table that has it.
pub proof fn lemma_merged_lookup(
    tables: Seq<Arc<SsTable>>,
    sources: Seq<Seq<(Seq<u8>, Seq<u8>)>>,
    key: Seq<u8>,
    first: Option<usize>,
)
    requires
        tables.len() == sources.len(),
        forall|j: int|
            0 <= j < tables.len() ==> (#[trigger] tables[j]).intact() && seeked(
                tables[j].entries(),
                key,
                sources[j],
            ),
        match first {
            Some(i) => is_first(sources, i as int),
            None => all_empty(sources),
        },
    ensures
        hit(merged(sources), key) == first_value(tables, key, 0),
{
    assert forall|j: int| 0 <= j < tables.len() implies (#[trigger] tables[j]).value_of(key)
        == hit(sources[j], key) && (sources[j].len() > 0 ==> key_le(key, sources[j][0].0)) by {
        lemma_seek_hit(tables[j].entries(), key, sources[j]);
    }
    match first {
        Some(i) => {
            let i = i as int;
            crate::iterators::merge_iterator::lemma_merged_unfold(sources, i);
            let head = sources[i][0];
            lemma_key_lt_irreflexive(key);
            if head.0 == key {
                assert forall|j: int| 0 <= j < i implies (#[trigger] tables[j]).value_of(key)
                    is None by {
                    assert(sources[j].len() > 0 ==> key_lt(head.0, sources[j][0].0));
                }
                assert(tables[i].value_of(key) == Some(head.1));
                lemma_first_value_at(tables, key, 0, i);
            } else {
                assert(key_lt(key, head.0));
                assert forall|j: int| 0 <= j < tables.len() implies (#[trigger] tables[j]).value_of(
                    key,
                ) is None by {
                    if sources[j].len() > 0 {
                        if j < i {
                            assert(key_lt(head.0, sources[j][0].0));
                            lemma_key_lt_transitive(key, head.0, sources[j][0].0);
                        } else {
                            assert(key_le(head.0, sources[j][0].0));
                            lemma_key_lt_le(key, head.0, sources[j][0].0);
                        }
                    }
                }
                lemma_first_value_none(tables, key, 0);
            }
        },
        None => {
            crate::iterators::merge_iterator::lemma_merged_unfold(sources, 0);
            assert forall|j: int| 0 <= j < tables.len() implies (#[trigger] tables[j]).value_of(
                key,
            ) is None by {
                assert(sources[j].len() == 0);
            }
            lemma_first_value_none(tables, key, 0);
        },
    }
}

/// Tables that stand one place further back in one sequence than in
/// another have the same value for a key, each from its place on.
pub proof fn lemma_first_value_shift(
    a: Seq<Arc<SsTable>>,
    b: Seq<Arc<SsTable>>,
    key: Seq<u8>,
    from: int,
)
    requires
        0 <= from,
        a.len() == b.len() + 1,
        forall|j: int| from <= j < b.len() ==> #[trigger] a[j + 1] == b[j],
    ensures
        first_value(a, key, from + 1) == first_value(b, key, from),
    decreases b.len() - from,
{
    if from < b.len() {
        assert(a[from + 1] == b[from]);
        lemma_first_value_shift(a, b, key, from + 1);
    }
}

/// Levels that are the same from level `from` on have the same value for a
/// key from there on.
pub proof fn lemma_deeper_same(
    a: Seq<Seq<Arc<SsTable>>>,
    b: Seq<Seq<Arc<SsTable>>>,
    key: Seq<u8>,
    from: int,
)
    requires
        a.len() == b.len(),
        forall|l: int| from <= l < a.len() ==> #[trigger] a[l] == b[l],
    ensures
        deeper_value(a, key, from) == deeper_value(b, key, from),
    decreases a.len() - from,
{
    if 0 <= from < a.len() {
        assert(a[from] == b[from]);
        lemma_deeper_same(a, b, key, from + 1);
    }
}

/// Once a table has become the newest of level 0, the levels have for a
/// key what that table has for it, and what they had before where it does
/// not have the key.
pub proof fn lemma_pushed_value(
    before: Seq<Seq<Arc<SsTable>>>,
    after: Seq<Seq<Arc<SsTable>>>,
    table: Arc<SsTable>,
    key: Seq<u8>,
)
    requires
        before.len() > 0,
        after == before.update(0, before[0].push(table)),
    ensures
        stored_value(after, key) == match table.value_of(key) {
            Some(value) => Some(value),
            None => stored_value(before, key),
        },
{
    let a = newest_first(after[0]);
    let b = newest_first(before[0]);
    assert(a[0] == table);
    assert forall|j: int| 0 <= j < b.len() implies #[trigger] a[j + 1] == b[j] by {}
    lemma_first_value_shift(a, b, key, 0);
    lemma_deeper_same(after, before, key, 1);
}

/// Where the tables stand in the order of their first keys, the binary
/// search for a key ends behind the last table whose first key is the key
/// or sorts before it.
pub proof fn lemma_search_end(tables: Seq<Arc<SsTable>>, key: Seq<u8>, left: int, right: int)
    requires
        in_order(tables, TableOrder::BySmallestKey),
        0 <= left <= right <= tables.len(),
        forall|j: int| 0 <= j < left ==> key_le((#[trigger] tables[j]).smallest(), key),
        forall|j: int| right <= j < tables.len() ==> key_lt(key, (#[trigger] tables[j]).smallest()),
    ensures
        left <= table_search_end(tables, key, left, right) <= right,
        forall|j: int|
            0 <= j < table_search_end(tables, key, left, right) ==> key_le(
                (#[trigger] tables[j]).smallest(),
                key,
            ),
        forall|j: int|
            table_search_end(tables, key, left, right) <= j < tables.len() ==> key_lt(
                key,
                (#[trigger] tables[j]).smallest(),
            ),
    decreases right - left,
{
    if left < right {
        let mid = left + (right - left) / 2;
        let at = tables[mid].smallest();
        crate::key::lemma_key_le_not_gt(at, key);
        if key_le(at, key) {
            assert forall|j: int| 0 <= j < mid + 1 implies key_le(
                (#[trigger] tables[j]).smallest(),
                key,
            ) by {
                if j < mid {
                    assert(order::precedes(*tables[j], *tables[mid], TableOrder::BySmallestKey));
                    crate::key::lemma_key_le_transitive(tables[j].smallest(), at, key);
                }
            }
            lemma_search_end(tables, key, mid + 1, right);
        } else {
            assert forall|j: int| mid <= j < tables.len() implies key_lt(
                key,
                (#[trigger] tables[j]).smallest(),
            ) by {
                if j > mid {
                    assert(order::precedes(*tables[mid], *tables[j], TableOrder::BySmallestKey));
                    lemma_key_lt_le(key, at, tables[j].smallest());
                }
            }
            lemma_search_end(tables, key, left, mid);
        }
    }
}

/// In a level of intact tables that stand one before the other, a lookup
/// reads the one table that can have the key: the level has for a key what
/// the first of its tables that has the key has for it.
pub proof fn lemma_level_lookup(tables: Seq<Arc<SsTable>>, key: Seq<u8>)
    requires
        order::level_sorted(tables),
        forall|i: int| 0 <= i < tables.len() ==> (#[trigger] tables[i]).wf() && tables[i].intact(),
    ensures
        level_value(tables, key) == first_value(tables, key, 0),
{
    let n = tables.len() as int;
    assert forall|i: int| 0 <= i < n implies key_le(
        (#[trigger] tables[i]).smallest(),
        tables[i].biggest(),
    ) by {
        tables[i].lemma_key_range();
    }
    assert(in_order(tables, TableOrder::BySmallestKey)) by {
        assert forall|i: int, j: int| 0 <= i < j < n implies order::precedes(
            *#[trigger] tables[i],
            *#[trigger] tables[j],
            TableOrder::BySmallestKey,
        ) by {
            assert(key_le(tables[i].smallest(), tables[i].biggest()));
            assert(key_lt(tables[i].biggest(), tables[j].smallest()));
            crate::key::lemma_key_le_lt(
                tables[i].smallest(),
                tables[i].biggest(),
                tables[j].smallest(),
            );
        }
    }
    if n > 0 {
        lemma_search_end(tables, key, 0, n);
        let end = table_search_end(tables, key, 0, n);
        let picked = picked_table(tables, key);
        assert forall|i: int| 0 <= i < n && i != picked implies (#[trigger] tables[i]).value_of(
            key,
        ) is None by {
            if crate::key::has_key(tables[i].entries(), key) {
                let x = choose|x: int|
                    0 <= x < tables[i].entries().len() && (#[trigger] tables[i].entries()[x]).0
                        == key;
                tables[i].lemma_holds_within(x);
                lemma_key_lt_irreflexive(key);
                if i >= end {
                    assert(key_lt(key, tables[i].smallest()));
                    crate::key::lemma_key_lt_le(key, tables[i].smallest(), key);
                } else {
                    // `i` stands before the table that is read.
                    assert(i < end - 1);
                    assert(key_lt(tables[i].biggest(), tables[end - 1].smallest()));
                    assert(key_le(tables[end - 1].smallest(), key));
                    crate::key::lemma_key_le_lt(key, tables[i].biggest(), tables[end - 1].smallest());
                    crate::key::lemma_key_lt_le(key, tables[end - 1].smallest(), key);
                }
            }
        }
        match tables[picked].value_of(key) {
            Some(value) => {
                lemma_first_value_at(tables, key, 0, picked);
            },
            None => {
                lemma_first_value_none(tables, key, 0);
            },
        }
    }
}

/// A table whose bloom filter denies a key does not have the key, if the
/// filter is sound.
pub proof fn lemma_bloom_denies(table: &SsTable, key: Seq<u8>)
    requires
        table.bloom_sound(),
        table.bloom() matches Some(filter) && !crate::bloom::filter_may_contain(
            filter,
            crate::table::xxh3_64(key),
        ),
    ensures
        table.value_of(key) is None,
{
    if crate::key::has_key(table.entries(), key) {
        let i = choose|i: int|
            0 <= i < table.entries().len() && (#[trigger] table.entries()[i]).0 == key;
        assert(table.entries()[i].0 == key);
    }
}

/// The table of a level in which a lookup of `key` looks.
pub fn find_table_idx(tables: &Vec<Arc<SsTable>>, key: &[u8]) -> (idx: usize)
    requires
        tables@.len() > 0,
    ensures
        idx == picked_table(tables@, key@),
        idx < tables@.len(),
{
    let n = tables.len();
    let mut left: usize = 0;
    let mut right: usize = n;
    while left < right
        invariant
            left <= right <= n == tables@.len(),
            table_search_end(tables@, key@, 0, n as int) == table_search_end(
                tables@,
                key@,
                left as int,
                right as int,
            ),
        decreases right - left,
    {
        let mid = left + (right - left) / 2;
        proof {
            lemma_key_le_not_gt(tables@[mid as int].smallest(), key@);
        }
        if compare_keys(tables[mid].smallest_key(), key) != KeyOrder::Greater {
            left = mid + 1;
        } else {
            right = mid;
        }
    }
    if left == 0 {
        0
    } else {
        left - 1
    }
}

/// The levels and what goes with them: the tables that compactions have
/// reserved, the id of the next table, and the MANIFEST.
pub struct LevelsControllerInner {
    next_sst_id: u64,
    levels: Vec<Vec<Arc<SsTable>>>,
    compact_job: Vec<HashSet<u64>>,
    manifest: ManifestFile,
    opt: LsmOptions,
}

impl LevelsControllerInner {
    /// The tables of each level.
    pub closed spec fn levels(&self) -> Seq<Seq<Arc<SsTable>>> {
        Seq::new(self.levels@.len(), |l: int| self.levels@[l]@)
    }

    /// The ids that compactions have reserved in each level.
    pub closed spec fn reserved(&self) -> Seq<Set<u64>> {
        Seq::new(self.compact_job@.len(), |l: int| self.compact_job@[l]@)
    }

    /// The id that the next new table gets.
    pub closed spec fn next_id(&self) -> u64 {
        self.next_sst_id
    }

    /// The MANIFEST.
    pub closed spec fn manifest(&self) -> ManifestFile {
        self.manifest
    }

    /// The options.
    pub closed spec fn options(&self) -> LsmOptions {
        self.opt
    }

    /// What holds of the levels at all times: there are as many as the
    /// options say, every table is well formed and is live in the MANIFEST
    /// at its level, every table that is live in the MANIFEST stands in the
    /// levels, no two tables of a level have one id, the tables of every
    /// level below level 0 stand in the order of their first keys, and
    /// every live id lies below the next id.
    pub open spec fn wf(&self) -> bool {
        &&& 2 <= self.levels().len() <= MAX_LEVEL
        &&& self.levels().len() == self.options().num_levels
        &&& self.reserved().len() == MAX_LEVEL
        &&& self.manifest().wf()
        &&& tables_live(self.levels(), self.manifest().live())
        &&& every_live_placed(self.levels(), self.manifest().live())
        &&& tables_distinct(self.levels())
        &&& levels_in_order(self.levels())
        &&& forall|id: u64| #[trigger]
            self.manifest().live().contains_key(id) ==> id < self.next_id()
    }

    /// Every table is intact and its bloom filter sound.
    pub open spec fn all_sound(&self) -> bool {
        forall|l: int, i: int|
            0 <= l < self.levels().len() && 0 <= i < self.levels()[l].len() ==> (
            #[trigger] self.levels()[l][i]).sound()
    }

    /// The levels as the MANIFEST and the table files of a database give
    /// them.
    ///
    /// Every file of `files`, given with the id in its name, whose id is
    /// live in the MANIFEST is opened and placed at its level; the others
    /// are left out. Level 0 keeps the order in which the MANIFEST created
    /// its tables, the deeper levels are put in the order of their first
    /// keys, and the next id is one above the largest live id. Fails with
    /// `InvalidLevel` where the options ask for fewer than two or more than
    /// `MAX_LEVEL` levels or the MANIFEST has a table at a level that the
    /// options do not have, with the error of the MANIFEST or of a table
    /// that does not open, with `MissingTable` where a live table has no
    /// file or two files have one id, and with `Overflow` where the ids are
    /// exhausted.
    #[verifier::spinoff_prover]
    #[verifier::rlimit(100)]
    pub fn new(opt: LsmOptions, manifest: &[u8], files: Vec<(u64, FileObject)>) -> (r: Result<
        Self,
        LsmError,
    >)
        ensures
            r matches Ok(inner) ==> {
                &&& inner.wf()
                &&& inner.options() == opt
                &&& inner.manifest().log() == manifest@
                &&& inner.manifest().pending().len() == 0
                &&& every_live_placed(inner.levels(), inner.manifest().live())
                &&& forall|l: int|
                    1 <= l < inner.levels().len() ==> in_order(
                        #[trigger] inner.levels()[l],
                        TableOrder::BySmallestKey,
                    )
                &&& forall|l: int|
                    0 <= l < MAX_LEVEL ==> (#[trigger] inner.reserved()[l]) == Set::<u64>::empty()
                &&& is_next_id(inner.manifest().live(), inner.next_id())
                &&& levels_from_files(inner.levels(), files@)
                &&& crate::manifest::replayed(
                    manifest@,
                    0,
                    crate::manifest::nothing_replayed(),
                ) matches Ok(state) && state.live == inner.manifest().live()
                    && order::in_order_of(inner.levels()[0], state.level0)
            },
            opt.num_levels < 2 || opt.num_levels > MAX_LEVEL ==> r == Err::<Self, LsmError>(
                LsmError::InvalidLevel,
            ),
            2 <= opt.num_levels <= MAX_LEVEL ==> match crate::manifest::replayed(
                manifest@,
                0,
                crate::manifest::nothing_replayed(),
            ) {
                Ok(state) => r is Ok <==> files_fit(files@, state.live, opt.num_levels),
                Err(e) => r == Err::<Self, LsmError>(e),
            },
            r is Ok <==> opens(opt, manifest@, files@),
    {
        if opt.num_levels < 2 || opt.num_levels > MAX_LEVEL {
            return Err(LsmError::InvalidLevel);
        }
        let (manifest, l0_ids) = match ManifestFile::open(manifest) {
            Ok(opened) => opened,
            Err(e) => { return Err(e); },
        };
        let (tables, next_sst_id) = match open_tables(&manifest, files, opt.num_levels) {
            Ok(opened) => opened,
            Err(e) => { return Err(e); },
        };
        let ghost live = manifest.live();
        let mut levels: Vec<Vec<Arc<SsTable>>> = Vec::with_capacity(opt.num_levels);
        let mut l: usize = 0;
        while l < opt.num_levels
            invariant
                l <= opt.num_levels,
                2 <= opt.num_levels <= MAX_LEVEL,
                manifest.wf(),
                live == manifest.live(),
                opened_ok(tables@, live, opt.num_levels),
                levels@.len() == l,
                forall|k: int|
                    0 <= k < l ==> level_of_tables(tables@, live, k, (#[trigger] levels@[k])@),
                forall|k: int|
                    1 <= k < l ==> in_order((#[trigger] levels@[k])@, TableOrder::BySmallestKey),
                l > 0 ==> order::in_order_of(levels@[0]@, l0_ids@),
                from_files(tables@, files@),
            decreases opt.num_levels - l,
        {
            let pool = tables_at(&tables, &manifest, l);
            let level = if l == 0 {
                in_creation_order(pool, &l0_ids)
            } else {
                sort_tables(&pool, TableOrder::BySmallestKey)
            };
            proof {
                if l == 0 {
                    order::lemma_creation_order(pool@, l0_ids@);
                }
                lemma_same_elements(pool@, level@);
                lemma_distinct_rearranged(pool@, level@);
                assert forall|i: int| 0 <= i < level@.len() implies (#[trigger] level@[i]).wf()
                    && live.contains_key(level@[i].id()) by {
                    assert(level@.contains(level@[i]));
                    assert(pool@.contains(level@[i]));
                    let k = choose|k: int| 0 <= k < pool@.len() && pool@[k] == level@[i];
                    assert(pool@[k].wf());
                }
                assert(level_of_tables(tables@, live, l as int, level@));
            }
            let ghost before = levels@;
            levels.push(level);
            proof {
                assert forall|k: int| 0 <= k < l + 1 implies level_of_tables(
                    tables@,
                    live,
                    k,
                    (#[trigger] levels@[k])@,
                ) by {
                    if k < l {
                        assert(levels@[k] == before[k]);
                    }
                }
                assert forall|k: int| 1 <= k < l + 1 implies in_order(
                    (#[trigger] levels@[k])@,
                    TableOrder::BySmallestKey,
                ) by {
                    if k < l {
                        assert(levels@[k] == before[k]);
                    }
                }
            }
            l += 1;
        }
        let mut compact_job: Vec<HashSet<u64>> = Vec::with_capacity(MAX_LEVEL);
        let mut l: usize = 0;
        while l < MAX_LEVEL
            invariant
                l <= MAX_LEVEL,
                compact_job@.len() == l,
                forall|k: int| 0 <= k < l ==> (#[trigger] compact_job@[k])@ == Set::<u64>::empty(),
            decreases MAX_LEVEL - l,
        {
            compact_job.push(HashSet::new());
            l += 1;
        }
        let inner = Self { next_sst_id, levels, compact_job, manifest, opt };
        proof {
            assert forall|l: int, i: int|
                0 <= l < inner.levels().len() && 0 <= i < inner.levels()[l].len() implies {
                let table = #[trigger] inner.levels()[l][i];
                &&& table.wf()
                &&& live.contains_key(table.id())
                &&& live[table.id()] == l
            } by {
                assert(level_of_tables(tables@, live, l, levels@[l]@));
                assert(levels@[l]@.contains(inner.levels()[l][i]));
            }
            assert forall|l: int, i: int, j: int|
                0 <= l < inner.levels().len() && 0 <= i < j < inner.levels()[l].len() implies (
            #[trigger] inner.levels()[l][i]).id() != (#[trigger] inner.levels()[l][j]).id() by {
                assert(level_of_tables(tables@, live, l, levels@[l]@));
            }
            assert forall|id: u64| #[trigger] live.contains_key(id) implies exists|l: int, i: int|
                0 <= l < inner.levels().len() && 0 <= i < inner.levels()[l].len() && (
                #[trigger] inner.levels()[l][i]).id() == id by {
                let t = choose|t: int| 0 <= t < tables@.len() && (#[trigger] tables@[t]).id() == id;
                let l = live[id] as int;
                assert(level_of_tables(tables@, live, l, levels@[l]@));
                assert(levels@[l]@.contains(tables@[t]));
                let i = choose|i: int| 0 <= i < levels@[l]@.len() && levels@[l]@[i] == tables@[t];
                assert(inner.levels()[l][i].id() == id);
            }
            assert forall|l: int| 1 <= l < inner.levels().len() implies in_order(
                #[trigger] inner.levels()[l],
                TableOrder::BySmallestKey,
            ) by {
                assert(in_order(levels@[l]@, TableOrder::BySmallestKey));
            }
            assert forall|l: int| 0 <= l < MAX_LEVEL implies (#[trigger] inner.reserved()[l])
                == Set::<u64>::empty() by {
                assert(compact_job@[l]@ == Set::<u64>::empty());
            }
            assert(inner.levels()[0] == levels@[0]@);
            assert forall|l: int, i: int|
                0 <= l < inner.levels().len() && 0 <= i < inner.levels()[l].len() implies exists|
                k: int,
            |
                0 <= k < files@.len() && (#[trigger] files@[k]).0 == (
                #[trigger] inner.levels()[l][i]).id() && files@[k].1@
                    == inner.levels()[l][i].data() by {
                let x = inner.levels()[l][i];
                assert(level_of_tables(tables@, live, l, levels@[l]@));
                assert(levels@[l]@.contains(x));
                assert(tables@.contains(x));
                let t = choose|t: int| 0 <= t < tables@.len() && tables@[t] == x;
                assert(tables@[t].id() == x.id());
            }
        }
        Ok(inner)
    }

    /// The size that level `level` is to stay under, in bytes: the size
    /// for level 0, times the multiplier for each level that it lies
    /// deeper; the largest number where that is too large.
    pub fn max_level_byte(&self, level: usize) -> (bytes: usize)
        ensures
            bytes == level_limit(
                self.options().max_bytes_for_level_base,
                self.options().max_bytes_for_level_multiplier,
                level as nat,
            ),
    {
        let mut base_byte = self.opt.max_bytes_for_level_base;
        let mut i: usize = 0;
        while i < level
            invariant
                i <= level,
                base_byte == level_limit(
                    self.opt.max_bytes_for_level_base,
                    self.opt.max_bytes_for_level_multiplier,
                    i as nat,
                ),
            decreases level - i,
        {
            base_byte = crate::opt::saturating_product(
                base_byte,
                self.opt.max_bytes_for_level_multiplier,
            );
            i += 1;
        }
        base_byte
    }

    /// The number of tables that level `level` is to stay under: the
    /// number of tables of the target size that the size for level 0 holds,
    /// times itself for each level that it lies deeper; the largest number
    /// where that is too large, and zero for a target size of zero.
    pub fn max_level_file(&self, level: usize) -> (files: usize)
        ensures
            files == level_limit(
                file_size_base(self.options()),
                file_size_base(self.options()),
                level as nat,
            ),
    {
        let file_size_base = if self.opt.target_file_size_base == 0 {
            0
        } else {
            self.opt.max_bytes_for_level_base / self.opt.target_file_size_base
        };
        let mut num = file_size_base;
        let mut i: usize = 0;
        while i < level
            invariant
                i <= level,
                file_size_base == self::file_size_base(self.opt),
                num == level_limit(file_size_base, file_size_base, i as nat),
            decreases level - i,
        {
            num = crate::opt::saturating_product(num, file_size_base);
            i += 1;
        }
        num
    }

    /// The bytes of the tables of level `level` that no compaction has
    /// reserved; the largest number where they are more.
    pub fn level_size(&self, level: usize) -> (size: usize)
        requires
            self.wf(),
            level < self.levels().len(),
        ensures
            size == free_size(
                self.levels()[level as int],
                self.reserved()[level as int],
                self.levels()[level as int].len() as int,
            ),
    {
        let tables = &self.levels[level];
        let job = &self.compact_job[level];
        assert(self.levels()[level as int] == tables@);
        assert(self.reserved()[level as int] == job@);
        let mut size: usize = 0;
        let mut i: usize = 0;
        while i < tables.len()
            invariant
                i <= tables@.len(),
                size == free_size(tables@, job@, i as int),
            decreases tables@.len() - i,
        {
            let id = tables[i].id();
            if !job.contains(&id) {
                size = size.saturating_add(tables[i].size());
            }
            i += 1;
        }
        size
    }

    /// How full level `level` is: the fuller of its bytes over the bytes
    /// that it is to stay under and its tables over the tables that it is
    /// to stay under.
    pub open spec fn level_score(&self, level: int) -> Score {
        let by_size = Score {
            used: free_size(
                self.levels()[level],
                self.reserved()[level],
                self.levels()[level].len() as int,
            ),
            limit: level_limit(
                self.options().max_bytes_for_level_base,
                self.options().max_bytes_for_level_multiplier,
                level as nat,
            ),
        };
        let by_count = Score {
            used: self.levels()[level].len() as usize,
            limit: level_limit(
                file_size_base(self.options()),
                file_size_base(self.options()),
                level as nat,
            ),
        };
        if by_count.spec_above(by_size) || !by_size.defined() {
            by_count
        } else {
            by_size
        }
    }

    /// The levels that are full, the fullest first; the last level is never
    /// among them.
    pub fn pick_compact_levels(&self) -> (prios: Vec<TaskPriority>)
        requires
            self.wf(),
        ensures
            forall|a: int|
                0 <= a < prios@.len() ==> {
                    let p = #[trigger] prios@[a];
                    &&& p.level < self.levels().len() - 1
                    &&& p.score == self.level_score(p.level as int)
                    &&& p.score.spec_is_full()
                },
            descending(prios@),
            forall|l: int|
                0 <= l < self.levels().len() - 1 && self.level_score(l).spec_is_full()
                    ==> exists|a: int| 0 <= a < prios@.len() && (#[trigger] prios@[a]).level == l,
    {
        let mut prios: Vec<TaskPriority> = Vec::new();
        let last = self.levels.len() - 1;
        let mut i: usize = 0;
        while i < last
            invariant
                i <= last == self.levels@.len() - 1,
                self.wf(),
                forall|a: int|
                    0 <= a < prios@.len() ==> {
                        let p = #[trigger] prios@[a];
                        &&& p.level < i
                        &&& p.score == self.level_score(p.level as int)
                        &&& p.score.spec_is_full()
                    },
                descending(prios@),
                forall|l: int|
                    0 <= l < i && self.level_score(l).spec_is_full() ==> exists|a: int|
                        0 <= a < prios@.len() && (#[trigger] prios@[a]).level == l,
            decreases last - i,
        {
            let pri = TaskPriority::new(i, self.score_of(i));
            if pri.score.is_full() {
                let ghost before = prios@;
                insert_priority(&mut prios, pri);
                proof {
                    assert forall|l: int|
                        0 <= l < i + 1 && self.level_score(l).spec_is_full() implies exists|a: int|
                        0 <= a < prios@.len() && (#[trigger] prios@[a]).level == l by {
                        if l < i {
                            let a = choose|a: int|
                                0 <= a < before.len() && (#[trigger] before[a]).level == l;
                            assert(prios@.contains(before[a]));
                            let a1 = choose|a1: int| 0 <= a1 < prios@.len() && prios@[a1] == before[a];
                            assert(prios@[a1].level == l);
                        } else {
                            assert(prios@.contains(pri));
                            let a1 = choose|a1: int| 0 <= a1 < prios@.len() && prios@[a1] == pri;
                            assert(prios@[a1].level == l);
                        }
                    }
                    assert forall|a: int| 0 <= a < prios@.len() implies {
                        let p = #[trigger] prios@[a];
                        &&& p.level < i + 1
                        &&& p.score == self.level_score(p.level as int)
                        &&& p.score.spec_is_full()
                    } by {
                        assert(prios@.contains(prios@[a]));
                        if prios@[a] != pri {
                            let a0 = choose|a0: int| 0 <= a0 < before.len() && before[a0] == prios@[a];
                            assert(before[a0].level < i);
                        }
                    }
                }
            }
            i += 1;
        }
        prios
    }

    /// How full level `level` is.
    pub fn score_of(&self, level: usize) -> (score: Score)
        requires
            self.wf(),
            level < self.levels().len(),
        ensures
            score == self.level_score(level as int),
    {
        let size = self.level_size(level);
        let by_size = Score { used: size, limit: self.max_level_byte(level) };
        assert(self.levels()[level as int] == self.levels@[level as int]@);
        let by_count = Score { used: self.levels[level].len(), limit: self.max_level_file(level) };
        by_size.max(by_count)
    }

    /// The tables that a scan from `lower` to `upper` reads: those of level
    /// 0, the newest first, then those of each deeper level in their order,
    /// without the tables whose keys all lie before the key of `lower` or
    /// behind the key of `upper`.
    pub fn level_tables_sorted(&self, lower: Bound<&[u8]>, upper: Bound<&[u8]>) -> (res: Vec<
        Arc<SsTable>,
    >)
        requires
            self.wf(),
        ensures
            res@ == spanned_levels(
                self.levels(),
                crate::mem_table::bound_view(lower),
                crate::mem_table::bound_view(upper),
                self.levels().len() as int,
            ),
    {
        let ghost lo = crate::mem_table::bound_view(lower);
        let ghost hi = crate::mem_table::bound_view(upper);
        let mut res: Vec<Arc<SsTable>> = Vec::new();
        let num = self.levels.len();
        let mut l: usize = 0;
        while l < num
            invariant
                l <= num == self.levels@.len(),
                self.wf(),
                lo == crate::mem_table::bound_view(lower),
                hi == crate::mem_table::bound_view(upper),
                res@ == spanned_levels(self.levels(), lo, hi, l as int),
            decreases num - l,
        {
            let tables = &self.levels[l];
            assert(self.levels()[l as int] == tables@);
            let ghost before = res@;
            let ghost read = if l == 0 {
                newest_first(tables@)
            } else {
                tables@
            };
            let n = tables.len();
            let mut j: usize = 0;
            assert(spanned(read, lo, hi, 0) =~= Seq::empty());
            while j < n
                invariant
                    j <= n == tables@.len(),
                    read.len() == n,
                    read == if l == 0 {
                        newest_first(tables@)
                    } else {
                        tables@
                    },
                    lo == crate::mem_table::bound_view(lower),
                    hi == crate::mem_table::bound_view(upper),
                    res@ == before + spanned(read, lo, hi, j as int),
                decreases n - j,
            {
                let table = if l == 0 {
                    &tables[n - 1 - j]
                } else {
                    &tables[j]
                };
                assert(*table == read[j as int]);
                if in_bounds(table, lower, upper) {
                    res.push(share(table));
                }
                assert(res@ =~= before + spanned(read, lo, hi, j + 1));
                j += 1;
            }
            l += 1;
        }
        res
    }

    /// Takes a table of a flush into level 0.
    ///
    /// The table is built from what the builder took, under the next id;
    /// the MANIFEST gets the record of its creation, and the table becomes
    /// the newest of level 0. Fails with `Overflow` where the ids are
    /// exhausted and as the builder fails; then nothing has changed.
    pub fn l0_push_sstable(&mut self, builder: SsTableBuilder) -> (r: Result<
        Arc<SsTable>,
        LsmError,
    >)
        requires
            old(self).wf(),
            builder.wf(),
            builder.entries().len() > 0,
        ensures
            final(self).wf(),
            builder.has_room() && old(self).next_id() < u64::MAX ==> r is Ok,
            match push_error(old(self).next_id(), builder) {
                Some(e) => r matches Err(x) && x == e,
                None => r is Ok,
            },
            final(self).options() == old(self).options(),
            final(self).reserved() == old(self).reserved(),
            match r {
                Ok(table) => {
                    &&& table.wf()
                    &&& table.id() == old(self).next_id()
                    &&& table.entries() == builder.entries()
                    &&& table.readable()
                    &&& crate::key::entries_sorted(builder.entries()) ==> table.sound()
                    &&& final(self).levels() == old(self).levels().update(
                        0,
                        old(self).levels()[0].push(table),
                    )
                    &&& final(self).next_id() == old(self).next_id() + 1
                    &&& final(self).manifest().live() == old(self).manifest().live().insert(
                        table.id(),
                        0,
                    )
                    &&& final(self).manifest().log() == old(self).manifest().log()
                        + Change::created(table.id(), 0).record()
                },
                Err(e) => {
                    &&& final(self).levels() == old(self).levels()
                    &&& final(self).next_id() == old(self).next_id()
                    &&& final(self).manifest() == old(self).manifest()
                    &&& e == LsmError::Overflow || e == LsmError::Compression || e
                        == LsmError::UnknownCodec
                },
            },
    {
        let id = self.next_sst_id;
        if id == u64::MAX {
            return Err(LsmError::Overflow);
        }
        let table = match builder.build(id) {
            Ok(table) => Arc::new(table),
            Err(e) => { return Err(e); },
        };
        let change = Change::create(id, 0);
        let ghost before = self.levels();
        let ghost live = self.manifest().live();
        assert(!live.contains_key(id));
        match self.manifest.apply_change(&change) {
            Ok(()) => {},
            Err(e) => {
                assert(false);
                return Err(e);
            },
        }
        self.next_sst_id = id + 1;
        self.levels[0].push(share(&table));
        proof {
            assert(self.levels() =~= before.update(0, before[0].push(table)));
            assert forall|l: int, i: int|
                0 <= l < self.levels().len() && 0 <= i < self.levels()[l].len() implies {
                let t = #[trigger] self.levels()[l][i];
                &&& t.wf()
                &&& self.manifest().live().contains_key(t.id())
                &&& self.manifest().live()[t.id()] == l
            } by {
                if l == 0 && i == before[0].len() {
                } else {
                    assert(self.levels()[l][i] == before[l][i]);
                    assert(live.contains_key(before[l][i].id()));
                }
            }
            assert forall|l: int, i: int, j: int|
                0 <= l < self.levels().len() && 0 <= i < j < self.levels()[l].len() implies (
            #[trigger] self.levels()[l][i]).id() != (#[trigger] self.levels()[l][j]).id() by {
                assert(self.levels()[l][i] == before[l][i]);
                if l == 0 && j == before[0].len() {
                    assert(live.contains_key(before[l][i].id()));
                } else {
                    assert(self.levels()[l][j] == before[l][j]);
                }
            }
            assert forall|other: u64| #[trigger]
                self.manifest().live().contains_key(other) implies exists|l: int, i: int|
                0 <= l < self.levels().len() && 0 <= i < self.levels()[l].len() && (
                #[trigger] self.levels()[l][i]).id() == other by {
                if other == id {
                    assert(self.levels()[0][before[0].len() as int].id() == id);
                } else {
                    assert(live.contains_key(other));
                    let (l, i) = choose|l: int, i: int|
                        0 <= l < before.len() && 0 <= i < before[l].len() && (
                        #[trigger] before[l][i]).id() == other;
                    assert(self.levels()[l][i] == before[l][i]);
                }
            }
        }
        Ok(table)
    }

    /// Chooses the tables of a compaction of level 0 into level 1 and
    /// reserves them.
    ///
    /// The compaction takes all tables of level 0, the newest first, and
    /// the tables of level 1 that overlap one of them. There is none where
    /// level 0 is empty, or one of its tables is reserved, or a table of
    /// level 1 that overlaps one of them is; then nothing is reserved.
    pub fn fill_table_l0(&mut self) -> (r: Option<Task>)
        requires
            old(self).wf(),
        ensures
            final(self).wf(),
            final(self).same_tables(old(self)),
            match r {
                Some(task) => {
                    &&& task.this_level_id == 0
                    &&& task.next_level_id == 1
                    &&& task.this_tables@ == newest_first(old(self).levels()[0])
                    &&& task.this_tables@.len() > 0
                    &&& task.next_tables@ == family(
                        old(self).levels()[1],
                        task.this_tables@,
                        old(self).levels()[1].len() as int,
                    )
                    &&& forall|i: int|
                        0 <= i < task.this_tables@.len() ==> eligible(
                            *#[trigger] task.this_tables@[i],
                            old(self).reserved()[0],
                            old(self).levels()[1],
                            old(self).reserved()[1],
                        )
                    &&& final(self).reserved() == reserved_for(old(self).reserved(), task)
                },
                None => {
                    &&& final(self).reserved() == old(self).reserved()
                    &&& old(self).levels()[0].len() == 0 || exists|i: int|
                        0 <= i < old(self).levels()[0].len() && !eligible(
                            *#[trigger] old(self).levels()[0][i],
                            old(self).reserved()[0],
                            old(self).levels()[1],
                            old(self).reserved()[1],
                        )
                },
            },
    {
        let ghost l0 = self.levels()[0];
        let ghost l1 = self.levels()[1];
        assert(l0 == self.levels@[0]@ && l1 == self.levels@[1]@);
        assert(self.reserved()[0] == self.compact_job@[0]@);
        assert(self.reserved()[1] == self.compact_job@[1]@);
        let n = self.levels[0].len();
        let mut this_tables: Vec<Arc<SsTable>> = Vec::with_capacity(n);
        let mut j: usize = 0;
        while j < n
            invariant
                j <= n == l0.len(),
                *self == *old(self),
                self.wf(),
                l0 == self.levels@[0]@,
                l1 == self.levels@[1]@,
                this_tables@ == newest_first(l0).take(j as int),
                forall|i: int|
                    0 <= i < j ==> eligible(
                        *#[trigger] newest_first(l0)[i],
                        self.compact_job@[0]@,
                        l1,
                        self.compact_job@[1]@,
                    ),
            decreases n - j,
        {
            let table = &self.levels[0][n - 1 - j];
            assert(*table == newest_first(l0)[j as int]);
            assert(l0[n - 1 - j] == *table);
            if self.compact_job[0].contains(&table.id()) || is_blocked(
                table,
                &self.levels[1],
                &self.compact_job[1],
            ) {
                return None;
            }
            this_tables.push(share(table));
            assert(this_tables@ =~= newest_first(l0).take(j + 1));
            j += 1;
        }
        assert(newest_first(l0).take(n as int) =~= newest_first(l0));
        if this_tables.len() == 0 {
            return None;
        }
        let next_tables = family_of(&self.levels[1], &this_tables);
        let task = Task { this_level_id: 0, next_level_id: 1, this_tables, next_tables };
        self.reserve(&task);
        Some(task)
    }

    /// Chooses the tables of a compaction of level `level` into the next
    /// and reserves them; level 0 has its own rule.
    pub fn create_task(&mut self, level: usize) -> (r: Option<Task>)
        requires
            old(self).wf(),
            level + 1 < old(self).levels().len(),
        ensures
            final(self).wf(),
            final(self).same_tables(old(self)),
            r is Some <==> choosable(old(self).levels(), old(self).reserved(), level as int),
            match r {
                Some(task) => chosen(old(self).levels(), old(self).reserved(), level as int, task)
                    && final(self).reserved() == reserved_for(old(self).reserved(), task),
                None => final(self).reserved() == old(self).reserved(),
            },
    {
        if level == 0 {
            let r = self.fill_table_l0();
            proof {
                match &r {
                    Some(task) => {
                        let l0 = old(self).levels()[0];
                        assert forall|i: int| 0 <= i < l0.len() implies eligible(
                            *#[trigger] l0[i],
                            old(self).reserved()[0],
                            old(self).levels()[1],
                            old(self).reserved()[1],
                        ) by {
                            assert(task.this_tables@[l0.len() - 1 - i] == l0[i]);
                        }
                        assert forall|x: Arc<SsTable>| #[trigger]
                            task.this_tables@.contains(x) implies l0.contains(x) && eligible(
                            *x,
                            old(self).reserved()[0],
                            old(self).levels()[1],
                            old(self).reserved()[1],
                        ) by {
                            let i = choose|i: int|
                                0 <= i < task.this_tables@.len() && task.this_tables@[i] == x;
                            assert(task.this_tables@[i] == l0[l0.len() - 1 - i]);
                        }
                        assert forall|i: int, j: int|
                            0 <= i < j < task.this_tables@.len() implies (
                        #[trigger] task.this_tables@[i]).id() != (
                        #[trigger] task.this_tables@[j]).id() by {
                            assert(l0[l0.len() - 1 - j].id() != l0[l0.len() - 1 - i].id());
                        }
                    },
                    None => {},
                }
            }
            return r;
        }
        let r = self.fill_table(level);
        proof {
            match &r {
                Some(task) => {
                    let x = task.this_tables@[0];
                    assert(task.this_tables@.contains(x));
                    let pool = old(self).levels()[level as int];
                    assert(pool.contains(x));
                    let i = choose|i: int| 0 <= i < pool.len() && pool[i] == x;
                    assert(eligible(
                        *pool[i],
                        old(self).reserved()[level as int],
                        old(self).levels()[level + 1],
                        old(self).reserved()[level + 1],
                    ));
                },
                None => {},
            }
        }
        r
    }

    /// Chooses the tables of a compaction of level `level` into the next
    /// and reserves them.
    ///
    /// The compaction takes every table of the level that is not reserved
    /// and overlaps no reserved table of the next level, the largest first,
    /// and the tables of the next level that overlap one of them. There is
    /// none where the level has no such table; then nothing is reserved.
    #[verifier::spinoff_prover]
    #[verifier::rlimit(60)]
    pub fn fill_table(&mut self, level: usize) -> (r: Option<Task>)
        requires
            old(self).wf(),
            1 <= level,
            level + 1 < old(self).levels().len(),
        ensures
            final(self).wf(),
            final(self).same_tables(old(self)),
            match r {
                Some(task) => {
                    &&& task.this_level_id == level
                    &&& task.next_level_id == level + 1
                    &&& task.this_tables@.len() > 0
                    &&& in_order(task.this_tables@, TableOrder::BySizeDescending)
                    &&& forall|x: Arc<SsTable>| #[trigger]
                        task.this_tables@.contains(x) <==> old(self).levels()[level as int].contains(
                            x,
                        ) && eligible(
                            *x,
                            old(self).reserved()[level as int],
                            old(self).levels()[level + 1],
                            old(self).reserved()[level + 1],
                        )
                    &&& ids_distinct(task.this_tables@)
                    &&& task.next_tables@ == family(
                        old(self).levels()[level + 1],
                        task.this_tables@,
                        old(self).levels()[level + 1].len() as int,
                    )
                    &&& final(self).reserved() == reserved_for(old(self).reserved(), task)
                },
                None => {
                    &&& final(self).reserved() == old(self).reserved()
                    &&& forall|i: int|
                        0 <= i < old(self).levels()[level as int].len() ==> !eligible(
                            *#[trigger] old(self).levels()[level as int][i],
                            old(self).reserved()[level as int],
                            old(self).levels()[level + 1],
                            old(self).reserved()[level + 1],
                        )
                },
            },
    {
        let ghost this_level = self.levels()[level as int];
        let ghost next_level = self.levels()[level + 1];
        assert(this_level == self.levels@[level as int]@ && next_level == self.levels@[level + 1]@);
        assert(self.reserved()[level as int] == self.compact_job@[level as int]@);
        assert(self.reserved()[level + 1] == self.compact_job@[level + 1]@);
        let ghost r_this = self.compact_job@[level as int]@;
        let ghost r_next = self.compact_job@[level + 1]@;
        let sorted = sort_tables(&self.levels[level], TableOrder::BySizeDescending);
        proof {
            lemma_same_elements(this_level, sorted@);
            assert(ids_distinct(this_level)) by {
                assert forall|i: int, j: int| 0 <= i < j < this_level.len() implies (
                #[trigger] this_level[i]).id() != (#[trigger] this_level[j]).id() by {
                    assert(self.levels()[level as int][i].id() != self.levels()[level as int][j].id());
                }
            }
            lemma_distinct_rearranged(this_level, sorted@);
        }
        let n = sorted.len();
        let mut this_tables: Vec<Arc<SsTable>> = Vec::new();
        let ghost from: Seq<int> = Seq::empty();
        let mut j: usize = 0;
        while j < n
            invariant
                j <= n == sorted@.len(),
                *self == *old(self),
                self.wf(),
                1 <= level,
                level + 1 < self.levels@.len(),
                next_level == self.levels@[level + 1]@,
                r_this == self.compact_job@[level as int]@,
                r_next == self.compact_job@[level + 1]@,
                in_order(sorted@, TableOrder::BySizeDescending),
                ids_distinct(sorted@),
                from.len() == this_tables@.len(),
                forall|k: int|
                    0 <= k < this_tables@.len() ==> 0 <= #[trigger] from[k] < j
                        && this_tables@[k] == sorted@[from[k]] && eligible(
                        *this_tables@[k],
                        r_this,
                        next_level,
                        r_next,
                    ),
                forall|a: int, b: int|
                    0 <= a < b < this_tables@.len() ==> #[trigger] from[a] < #[trigger] from[b],
                forall|k: int|
                    0 <= k < j && eligible(*#[trigger] sorted@[k], r_this, next_level, r_next)
                        ==> this_tables@.contains(sorted@[k]),
            decreases n - j,
        {
            let table = &sorted[j];
            let ghost before = this_tables@;
            if !self.compact_job[level].contains(&table.id()) && !is_blocked(
                table,
                &self.levels[level + 1],
                &self.compact_job[level + 1],
            ) {
                this_tables.push(share(table));
                proof {
                    from = from.push(j as int);
                    assert(this_tables@[this_tables@.len() - 1] == sorted@[j as int]);
                }
            }
            proof {
                assert forall|k: int|
                    0 <= k < j + 1 && eligible(
                        *#[trigger] sorted@[k],
                        r_this,
                        next_level,
                        r_next,
                    ) implies this_tables@.contains(sorted@[k]) by {
                    if k < j {
                        assert(before.contains(sorted@[k]));
                        let at = choose|at: int| 0 <= at < before.len() && before[at] == sorted@[k];
                        assert(this_tables@[at] == sorted@[k]);
                    } else {
                        assert(this_tables@[this_tables@.len() - 1] == sorted@[k]);
                    }
                }
            }
            j += 1;
        }
        proof {
            assert forall|x: Arc<SsTable>| #[trigger]
                this_tables@.contains(x) <==> this_level.contains(x) && eligible(
                    *x,
                    r_this,
                    next_level,
                    r_next,
                ) by {
                if this_tables@.contains(x) {
                    let k = choose|k: int| 0 <= k < this_tables@.len() && this_tables@[k] == x;
                    assert(sorted@[from[k]] == x);
                    assert(sorted@.contains(x));
                }
                if this_level.contains(x) && eligible(*x, r_this, next_level, r_next) {
                    assert(sorted@.contains(x));
                    let k = choose|k: int| 0 <= k < sorted@.len() && sorted@[k] == x;
                    assert(this_tables@.contains(sorted@[k]));
                }
            }
            assert forall|a: int, b: int| 0 <= a < b < this_tables@.len() implies (
            #[trigger] this_tables@[a]).id() != (#[trigger] this_tables@[b]).id() && order::precedes(
                *this_tables@[a],
                *this_tables@[b],
                TableOrder::BySizeDescending,
            ) by {
                assert(from[a] < from[b]);
                assert(sorted@[from[a]].id() != sorted@[from[b]].id());
            }
        }
        if this_tables.len() == 0 {
            proof {
                assert forall|i: int| 0 <= i < this_level.len() implies !eligible(
                    *#[trigger] this_level[i],
                    r_this,
                    next_level,
                    r_next,
                ) by {
                    assert(this_level.contains(this_level[i]));
                    assert(!this_tables@.contains(this_level[i]));
                }
            }
            return None;
        }
        let next_tables = family_of(&self.levels[level + 1], &this_tables);
        let task = Task {
            this_level_id: level,
            next_level_id: level + 1,
            this_tables,
            next_tables,
        };
        self.reserve(&task);
        Some(task)
    }

    /// Reserves the tables of a task.
    fn reserve(&mut self, task: &Task)
        requires
            old(self).wf(),
            task.next_level_id == task.this_level_id + 1,
            task.next_level_id < MAX_LEVEL,
        ensures
            final(self).wf(),
            final(self).same_tables(old(self)),
            final(self).reserved() == reserved_for(old(self).reserved(), *task),
    {
        let ghost before = self.reserved();
        add_ids(&mut self.compact_job[task.this_level_id], &task.this_tables);
        add_ids(&mut self.compact_job[task.next_level_id], &task.next_tables);
        assert(self.reserved() =~= reserved_for(before, *task));
    }

    /// Merges the entries of the tables of a task that lie between two
    /// bounds into new tables.
    ///
    /// Every table of the task is read from the key of `lower` on; the
    /// entries are merged, the earlier tables before the later ones where
    /// their keys are equal, up to the first key above `upper`, and go into
    /// tables that are closed as they reach their capacity. The tables get
    /// the next ids. Fails with `InvalidBounds` where `lower` does not take
    /// in its key or `upper` is no bound, and as reading and building
    /// fail; where the tables of the task are sound, whether it fails, and
    /// with what, is what `packed` says.
    #[verifier::spinoff_prover]
    #[verifier::rlimit(100)]
    pub fn sub_compact(
        &mut self,
        task: &Task,
        lower: &Bound<Vec<u8>>,
        upper: &Bound<Vec<u8>>,
    ) -> (r: Result<Vec<Arc<SsTable>>, LsmError>)
        requires
            old(self).wf(),
            task.wf(),
        ensures
            final(self).wf(),
            final(self).levels() == old(self).levels(),
            final(self).manifest() == old(self).manifest(),
            final(self).options() == old(self).options(),
            final(self).reserved() == old(self).reserved(),
            final(self).next_id() >= old(self).next_id(),
            !(lower is Included) || upper is Unbounded ==> r == Err::<
                Vec<Arc<SsTable>>,
                LsmError,
            >(LsmError::InvalidBounds),
            lower is Included && !(upper is Unbounded) && task_sound(*task) && task.tables().len()
                <= usize::MAX ==> match packed(
                old(self).options(),
                old(self).next_id() as int,
                piece(*task, (*lower, *upper)),
                0,
                crate::table::builder::no_layout(),
                true,
            ) {
                Ok(id) => r is Ok && final(self).next_id() == id,
                Err(e) => r matches Err(x) && x == e,
            },
            r matches Ok(out) ==> {
                &&& lower is Included
                &&& !(upper is Unbounded)
                &&& final(self).next_id() == old(self).next_id() + out@.len()
                &&& forall|k: int|
                    0 <= k < out@.len() ==> {
                        let table = #[trigger] out@[k];
                        &&& table.wf()
                        &&& table.readable()
                        &&& table.id() == old(self).next_id() + k
                    }
                &&& task_sound(*task) ==> flat_tables(out@, out@.len() as int) == crate::key::within(
                    merged(task_sources(*task, range::bound_key(*lower))),
                    crate::lsm_iterator::end_view(*upper),
                ) && forall|k: int| 0 <= k < out@.len() ==> (#[trigger] out@[k]).sound()
            },
    {
        let key = match lower {
            Bound::Included(key) => key,
            _ => { return Err(LsmError::InvalidBounds); },
        };
        match upper {
            Bound::Unbounded => { return Err(LsmError::InvalidBounds); },
            _ => {},
        }
        let ghost end = crate::lsm_iterator::end_view(*upper);
        let ghost sources = task_sources(*task, key@);
        let ghost fits = task_sound(*task) && task.tables().len() <= usize::MAX;
        let ghost w = piece(*task, (*lower, *upper));
        let ghost goal = packed(
            self.options(),
            self.next_id() as int,
            w,
            0,
            crate::table::builder::no_layout(),
            true,
        );
        proof {
            if task_sound(*task) {
                assert forall|j: int| 0 <= j < task.tables().len() implies (
                #[trigger] task.tables()[j]).readable() by {
                    assert(task.tables()[j].sound());
                }
            }
        }
        let iters = match seek_all(task, key.as_slice()) {
            Ok(iters) => iters,
            Err(e) => { return Err(e); },
        };
        let mut iter = MergeIterator::create(iters);
        let ghost m = iter.remaining();
        proof {
            if task_sound(*task) {
                assert(iter.sources() =~= sources);
                lemma_sources_sorted(*task, key@);
                crate::iterators::merge_iterator::lemma_merged_sorted(sources);
            }
        }
        let mut new_tables: Vec<Arc<SsTable>> = Vec::new();
        let ghost pos: int = 0;
        let ghost first_id = self.next_sst_id;
        while iter.is_valid() && crate::lsm_iterator::key_in_bound(iter.key(), upper)
            invariant
                lower is Included,
                !(upper is Unbounded),
                self.wf(),
                self.levels() == old(self).levels(),
                self.manifest() == old(self).manifest(),
                self.options() == old(self).options(),
                self.reserved() == old(self).reserved(),
                first_id == old(self).next_id(),
                self.next_id() == first_id + new_tables@.len(),
                end == crate::lsm_iterator::end_view(*upper),
                iter.wf(),
                0 <= pos <= m.len(),
                iter.remaining() == m.skip(pos),
                forall|i: int| 0 <= i < pos ==> crate::key::below_upper(end, #[trigger] m[i].0),
                flat_tables(new_tables@, new_tables@.len() as int) == m.take(pos),
                forall|k: int|
                    0 <= k < new_tables@.len() ==> {
                        let table = #[trigger] new_tables@[k];
                        &&& table.wf()
                        &&& table.readable()
                        &&& table.id() == first_id + k
                        &&& crate::key::entries_sorted(m) ==> table.sound()
                    },
                task_sound(*task) ==> iter.reliable(),
                fits == (task_sound(*task) && task.tables().len() <= usize::MAX),
                w == piece(*task, (*lower, *upper)),
                goal == packed(
                    old(self).options(),
                    old(self).next_id() as int,
                    w,
                    0,
                    crate::table::builder::no_layout(),
                    true,
                ),
                fits ==> w == crate::key::within(m, end) && pos <= w.len() && goal == packed(
                    self.options(),
                    self.next_id() as int,
                    w,
                    pos,
                    crate::table::builder::no_layout(),
                    true,
                ),
            decreases m.len() - pos,
        {
            let mut build = SsTableBuilder::new(self.opt.duplicate());
            let ghost start = pos;
            let mut first = true;
            proof {
                assert(m.skip(pos)[0] == m[pos]);
                crate::key::lemma_within_prefix(m, end);
                if fits {
                    assert(pos < w.len());
                }
            }
            while iter.is_valid() && (first || !build.reach_capacity())
                && crate::lsm_iterator::key_in_bound(iter.key(), upper)
                invariant
                    lower is Included,
                    !(upper is Unbounded),
                    self.wf(),
                    self.levels() == old(self).levels(),
                    self.manifest() == old(self).manifest(),
                    self.options() == old(self).options(),
                    self.reserved() == old(self).reserved(),
                    self.next_id() >= old(self).next_id(),
                    end == crate::lsm_iterator::end_view(*upper),
                    iter.wf(),
                    build.wf(),
                    0 <= start <= pos <= m.len(),
                    first ==> pos == start,
                    !first ==> pos > start,
                    iter.remaining() == m.skip(pos),
                    forall|i: int| 0 <= i < pos ==> crate::key::below_upper(end, #[trigger] m[i].0),
                    build.entries() == m.subrange(start, pos),
                    task_sound(*task) ==> iter.reliable(),
                    self.next_id() == first_id + new_tables@.len(),
                    fits == (task_sound(*task) && task.tables().len() <= usize::MAX),
                    w == piece(*task, (*lower, *upper)),
                    goal == packed(
                        old(self).options(),
                        old(self).next_id() as int,
                        w,
                        0,
                        crate::table::builder::no_layout(),
                        true,
                    ),
                    build.options() == self.options(),
                    fits ==> {
                        &&& w == crate::key::within(m, end)
                        &&& pos <= w.len()
                        &&& first ==> pos < w.len()
                        &&& goal == packed(
                            self.options(),
                            self.next_id() as int,
                            w,
                            pos,
                            build.layout(),
                            first,
                        )
                    },
                decreases m.len() - pos,
            {
                let k = iter.key();
                let v = iter.value();
                proof {
                    assert(m.skip(pos)[0] == m[pos]);
                    build.lemma_layout();
                    crate::key::lemma_within_prefix(m, end);
                    if fits {
                        assert(pos < w.len());
                        assert(w[pos] == m[pos]);
                        lemma_packed_entry(
                            self.options(),
                            self.next_id() as int,
                            w,
                            pos,
                            build.layout(),
                            first,
                        );
                    }
                }
                if k.len() == 0 || k.len() > 0xFFFF || v.len() > 0xFFFF {
                    return Err(LsmError::Overflow);
                }
                match build.add(k, v) {
                    Ok(()) => {},
                    Err(e) => { return Err(e); },
                }
                match iter.next() {
                    Ok(()) => {},
                    Err(e) => { return Err(e); },
                }
                proof {
                    assert(m.skip(pos)[0] == m[pos]);
                    assert(m.subrange(start, pos).push(m[pos]) =~= m.subrange(start, pos + 1));
                    assert(m.skip(pos).skip(1) =~= m.skip(pos + 1));
                    pos = pos + 1;
                }
                first = false;
            }
            let id = self.next_sst_id;
            proof {
                build.lemma_layout();
                crate::key::lemma_within_prefix(m, end);
                crate::key::lemma_within_all(m, end);
                if fits {
                    if pos < w.len() {
                        assert(w[pos] == m[pos]);
                        assert(m.skip(pos)[0] == m[pos]);
                        assert(crate::key::below_upper(end, m[pos].0));
                    }
                    assert(!first);
                    assert(pos >= w.len() || full_table(build.layout()));
                    lemma_packed_close(
                        self.options(),
                        self.next_id() as int,
                        w,
                        pos,
                        build.layout(),
                    );
                }
            }
            if id == u64::MAX {
                return Err(LsmError::Overflow);
            }
            let table = match build.build(id) {
                Ok(table) => table,
                Err(e) => { return Err(e); },
            };
            self.next_sst_id = id + 1;
            let ghost before = new_tables@;
            new_tables.push(Arc::new(table));
            proof {
                lemma_flat_tables_prefix(before, new_tables@, before.len() as int);
                assert(m.take(start) + m.subrange(start, pos) =~= m.take(pos));
                if crate::key::entries_sorted(m) {
                    let part = m.subrange(start, pos);
                    assert forall|a: int, b: int| 0 <= a < b < part.len() implies key_lt(
                        #[trigger] part[a].0,
                        #[trigger] part[b].0,
                    ) by {
                        assert(key_lt(m[start + a].0, m[start + b].0));
                    }
                }
            }
        }
        proof {
            crate::key::lemma_within_take(m, end, pos);
            if pos < m.len() {
                assert(m.skip(pos)[0] == m[pos]);
            }
            if fits {
                assert(pos >= w.len());
                lemma_packed_done(self.options(), self.next_id() as int, w, pos);
            }
        }
        Ok(new_tables)
    }

    /// Gives up the reservations of a task.
    fn release(&mut self, task: &Task)
        requires
            old(self).wf(),
            task.next_level_id == task.this_level_id + 1,
            task.next_level_id < MAX_LEVEL,
        ensures
            final(self).wf(),
            final(self).same_tables(old(self)),
            final(self).reserved() == released_from(old(self).reserved(), *task),
    {
        let ghost before = self.reserved();
        remove_ids(&mut self.compact_job[task.this_level_id], &task.this_tables);
        remove_ids(&mut self.compact_job[task.next_level_id], &task.next_tables);
        assert(self.reserved() =~= released_from(before, *task));
    }

    /// Puts the result of a compaction in the place of the tables that went
    /// into it: the level that was compacted loses the tables of the task,
    /// and the next level loses those of the task and gets the new tables,
    /// in the order of their first keys.
    fn update_with_tables(&mut self, task: &Task, new_tables: &Vec<Arc<SsTable>>)
        requires
            task.next_level_id == task.this_level_id + 1,
            task.next_level_id < old(self).levels().len(),
        ensures
            final(self).manifest() == old(self).manifest(),
            final(self).next_id() == old(self).next_id(),
            final(self).options() == old(self).options(),
            final(self).reserved() == old(self).reserved(),
            replaced(old(self).levels(), final(self).levels(), *task, new_tables@),
    {
        let ghost before = self.levels();
        let ghost gone_ids = ids_of(task.tables());
        let mut gone: HashSet<u64> = HashSet::new();
        add_ids(&mut gone, &task.this_tables);
        add_ids(&mut gone, &task.next_tables);
        proof {
            lemma_ids_of_concat(task.this_tables@, task.next_tables@);
            assert(gone@ =~= gone_ids);
        }
        let this = task.this_level_id;
        let next = task.next_level_id;
        assert(before[this as int] == self.levels@[this as int]@);
        assert(before[next as int] == self.levels@[next as int]@);
        let mut next_level = remove_tables(&self.levels[next], &gone);
        let ghost stay = next_level@;
        let mut i: usize = 0;
        while i < new_tables.len()
            invariant
                i <= new_tables@.len(),
                next_level@ == stay + new_tables@.take(i as int),
            decreases new_tables@.len() - i,
        {
            next_level.push(share(&new_tables[i]));
            assert(next_level@ =~= stay + new_tables@.take(i + 1));
            i += 1;
        }
        assert(new_tables@.take(new_tables@.len() as int) =~= new_tables@);
        let sorted = sort_tables(&next_level, TableOrder::BySmallestKey);
        let this_level = remove_tables(&self.levels[this], &gone);
        self.levels.set(next, sorted);
        self.levels.set(this, this_level);
        proof {
            assert(self.levels().len() == before.len());
            assert(self.levels()[this as int] == this_level@);
            assert(self.levels()[next as int] == sorted@);
            assert forall|l: int| 0 <= l < before.len() && l != this && l != next implies (
            #[trigger] self.levels()[l]) == before[l] by {}
        }
    }

    /// Compacts a level into the next.
    ///
    /// Chooses and reserves the tables of the compaction, see `chosen`;
    /// where there are none, or their keys give no range to compact,
    /// nothing happens and nothing comes back. Else
    /// the span of their keys is split into sub-ranges, see `sub_ranges`,
    /// the entries of each sub-range are merged into new tables of the next
    /// level, the MANIFEST gets the records of the new tables and of the
    /// tables of the task in one set of changes, the levels get the new
    /// tables in the place of those of the task, and the reservations are
    /// given up. After an error the reservations are given up as well, and
    /// levels and MANIFEST are as before.
    ///
    /// The compaction succeeds where the task that is chosen fits, see
    /// `task_fits`.
    ///
    /// The new tables hold, where the tables of the task are sound, what
    /// `compacted` gives between the first and the last of the keys at
    /// which the compaction can be split: entries of the tables of the
    /// task whose keys lie outside that span are in none of them. The keys
    /// at which a compaction of a level below level 0 can be split are the
    /// first keys of its tables and the last key of the last table of the
    /// next level; so a table of the compacted level that reaches past that
    /// key loses the keys behind it. Level 0 loses no key, as the last keys
    /// of its tables are among the keys at which it can be split.
    ///
    /// What the levels have stored for every key is kept where the tables
    /// were sound, the levels around the compaction stand one table before
    /// the other, before and after, and no key is lost, see
    /// `sorted_around`. The compaction itself does not see to it that the
    /// next level stands so afterwards: a new table can reach over a table
    /// that stayed in the next level.
    #[verifier::spinoff_prover]
    #[verifier::rlimit(100)]
    pub fn do_compact(&mut self, idx: usize, pri: TaskPriority) -> (r: Result<
        Option<Compacted>,
        LsmError,
    >)
        requires
            old(self).wf(),
            pri.level + 1 < old(self).levels().len(),
        ensures
            final(self).wf(),
            final(self).options() == old(self).options(),
            final(self).reserved() == old(self).reserved(),
            final(self).next_id() >= old(self).next_id(),
            !choosable(old(self).levels(), old(self).reserved(), pri.level as int)
                ==> r matches Ok(None),
            (forall|task: Task| #[trigger]
                chosen(old(self).levels(), old(self).reserved(), pri.level as int, task)
                    ==> task_fits(task, old(self).options(), old(self).next_id())) ==> r is Ok,
            match r {
                Ok(None) => {
                    &&& final(self).same_tables(old(self))
                    &&& !choosable(old(self).levels(), old(self).reserved(), pri.level as int)
                        || exists|task: Task| #[trigger]
                        chosen(old(self).levels(), old(self).reserved(), pri.level as int, task)
                            && range::one_boundary(task)
                },
                Ok(Some(done)) => {
                    &&& preserve::sorted_around(old(self).levels(), final(self).levels(), done)
                        ==> forall|key: Seq<u8>| #[trigger]
                        stored_value(final(self).levels(), key) == stored_value(
                            old(self).levels(),
                            key,
                        )
                    &&& key_lt(done.lower@, done.upper@)
                    &&& chosen(
                        old(self).levels(),
                        old(self).reserved(),
                        pri.level as int,
                        done.task,
                    )
                    &&& done.task.this_level_id == pri.level
                    &&& done.task.next_level_id == pri.level + 1
                    &&& replaced(old(self).levels(), final(self).levels(), done.task, done.created@)
                    &&& final(self).manifest().live() == live_after(
                        old(self).manifest().live(),
                        done.task,
                        done.created@,
                        (done.created@.len() + done.task.tables().len()) as int,
                    )
                    &&& final(self).manifest().log() == old(self).manifest().log()
                        + crate::manifest::records(
                        change_list(done.task, done.created@),
                        change_list(done.task, done.created@).len() as int,
                    )
                    &&& forall|k: int|
                        0 <= k < done.created@.len() ==> (#[trigger] done.created@[k]).wf()
                            && done.created@[k].readable() && old(self).next_id()
                            <= done.created@[k].id() < final(self).next_id()
                    &&& task_sound(done.task) ==> forall|k: int|
                        0 <= k < done.created@.len() ==> (#[trigger] done.created@[k]).sound()
                    &&& range::is_boundary(done.task, done.lower@)
                    &&& range::is_boundary(done.task, done.upper@)
                    &&& forall|key: Seq<u8>| #[trigger]
                        range::is_boundary(done.task, key) ==> key_le(done.lower@, key) && key_le(
                            key,
                            done.upper@,
                        )
                    &&& task_sound(done.task) ==> flat_tables(
                        done.created@,
                        done.created@.len() as int,
                    ) == compacted(done.task, done.lower@, Bound::Included(done.upper@))
                },
                Err(_) => final(self).levels() == old(self).levels() && final(self).manifest()
                    == old(self).manifest(),
            },
    {
        let level = pri.level;
        let ghost start = *self;
        let first_id = self.next_sst_id;
        let ghost fits = forall|t: Task| #[trigger]
            chosen(start.levels(), start.reserved(), pri.level as int, t) ==> task_fits(
                t,
                start.options(),
                start.next_id(),
            );
        let task = match self.create_task(level) {
            Some(task) => task,
            None => { return Ok(None); },
        };
        proof {
            lemma_task_tables(&start, task);
            lemma_release_restores(start.reserved(), task, start.levels()[level + 1]);
        }
        let (mut ranges, lower, upper) = match sub_ranges(&task, self.opt.subcompactor_num) {
            Some(plan) => plan,
            None => {
                self.release(&task);
                assert(chosen(start.levels(), start.reserved(), level as int, task)
                    && range::one_boundary(task));
                return Ok(None);
            },
        };
        proof {
            crate::key::lemma_from_key_head(merged(task_entries(task)), lower@);
            assert(flat_tables(Seq::<Arc<SsTable>>::empty(), 0) =~= compacted(
                task,
                lower@,
                Bound::Excluded(lower@),
            ));
        }
        proof {
            if fits {
                assert(task_fits(task, start.options(), start.next_id()));
                assert(range::spans(ranges@, lower@, upper@) && range::is_boundary(task, lower@)
                    && range::is_boundary(task, upper@));
                assert(split_of(task, ranges@));
            }
        }
        let mut new_tables: Vec<Arc<SsTable>> = Vec::new();
        let mut i: usize = 0;
        while i < ranges.len()
            invariant
                i <= ranges@.len(),
                self.wf(),
                task.wf(),
                start == *old(self),
                fits == (forall|t: Task| #[trigger]
                    chosen(start.levels(), start.reserved(), pri.level as int, t) ==> task_fits(
                        t,
                        start.options(),
                        start.next_id(),
                    )),
                key_lt(lower@, upper@),
                level == pri.level,
                choosable(start.levels(), start.reserved(), level as int),
                chosen(start.levels(), start.reserved(), level as int, task),
                released_from(reserved_for(start.reserved(), task), task) == start.reserved(),
                task.this_level_id == level,
                task.next_level_id == level + 1,
                level + 1 < self.levels().len(),
                self.levels() == start.levels(),
                self.manifest() == start.manifest(),
                self.options() == start.options(),
                self.reserved() == reserved_for(start.reserved(), task),
                first_id == start.next_id(),
                self.next_id() == first_id + new_tables@.len(),
                forall|k: int|
                    0 <= k < new_tables@.len() ==> {
                        let table = #[trigger] new_tables@[k];
                        &&& table.wf()
                        &&& table.readable()
                        &&& table.id() == first_id + k
                        &&& task_sound(task) ==> table.sound()
                    },
                range::spans(ranges@, lower@, upper@),
                task_sound(task) ==> flat_tables(new_tables@, new_tables@.len() as int)
                    == compacted(task, lower@, range::reach(ranges@, i as int, lower@)),
                fits ==> task_fits(task, start.options(), start.next_id()) && packed_all(
                    start.options(),
                    self.next_id() as int,
                    task,
                    ranges@,
                    i as int,
                ) is Ok,
            decreases ranges@.len() - i,
        {
            proof {
                if fits {
                    assert(task_fits(task, start.options(), start.next_id()));
                    assert(piece(task, ranges@[i as int]) == piece(
                        task,
                        (ranges@[i as int].0, ranges@[i as int].1),
                    ));
                }
            }
            let mut made = match self.sub_compact(&task, &ranges[i].0, &ranges[i].1) {
                Ok(made) => made,
                Err(e) => {
                    self.release(&task);
                    return Err(e);
                },
            };
            let ghost before = new_tables@;
            let ghost added = made@;
            new_tables.append(&mut made);
            proof {
                assert(new_tables@ =~= before + added);
                assert forall|k: int| 0 <= k < new_tables@.len() implies {
                    let table = #[trigger] new_tables@[k];
                    &&& table.wf()
                    &&& table.readable()
                    &&& table.id() == first_id + k
                    &&& task_sound(task) ==> table.sound()
                } by {
                    if k < before.len() {
                        assert(new_tables@[k] == before[k]);
                    } else {
                        assert(new_tables@[k] == added[k - before.len()]);
                    }
                }
                if task_sound(task) {
                    lemma_flat_concat(before, added, added.len() as int);
                    lemma_compact_step(
                        task,
                        ranges@,
                        i as int,
                        lower@,
                        upper@,
                        flat_tables(before, before.len() as int),
                        flat_tables(added, added.len() as int),
                    );
                }
            }
            i += 1;
        }
        proof {
            if task_sound(task) {
                assert(range::reach(ranges@, ranges@.len() as int, lower@) == Bound::Included(
                    upper@,
                ));
                lemma_compacted_sorted(task, lower@, Bound::Included(upper@));
                assert forall|k: int| 0 <= k < new_tables@.len() implies (
                #[trigger] new_tables@[k]).wf() && new_tables@[k].intact() by {
                    assert(new_tables@[k].sound());
                }
                lemma_flat_in_order(new_tables@);
            }
        }
        let sorted = sort_tables(&new_tables, TableOrder::BySmallestKey);
        let ghost live = self.manifest().live();
        proof {
            lemma_same_elements(new_tables@, sorted@);
            assert(ids_distinct(new_tables@));
            lemma_distinct_rearranged(new_tables@, sorted@);
            assert forall|k: int| 0 <= k < sorted@.len() implies (#[trigger] sorted@[k]).wf()
                && sorted@[k].readable() && first_id <= sorted@[k].id() < self.next_id() && (
            task_sound(task) ==> sorted@[k].sound()) && !live.contains_key(sorted@[k].id()) by {
                assert(sorted@.contains(sorted@[k]));
                assert(new_tables@.contains(sorted@[k]));
                let j = choose|j: int| 0 <= j < new_tables@.len() && new_tables@[j] == sorted@[k];
                assert(new_tables@[j].wf());
            }
            lemma_changes_apply(live, task, sorted@, 0);
            assert(live_after(live, task, sorted@, 0) =~= live);
        }
        let change_set = build_change_set(&task, &sorted);
        match self.manifest.apply_change_set(&change_set) {
            Ok(()) => {},
            Err(e) => {
                self.release(&task);
                return Err(e);
            },
        }
        let ghost middle = *self;
        self.update_with_tables(&task, &sorted);
        proof {
            lemma_installed_wf(&start, &middle, self, task, sorted@);
        }
        self.release(&task);
        let done = Compacted { task, created: sorted, lower, upper };
        proof {
            if preserve::sorted_around(start.levels(), self.levels(), done) {
                assert(well_done(done));
                assert forall|key: Seq<u8>| #[trigger]
                    stored_value(self.levels(), key) == stored_value(start.levels(), key) by {
                    if level == 0 {
                        preserve::lemma_l0_compaction_keeps_lookups(
                            start.levels(),
                            self.levels(),
                            start.reserved(),
                            start.manifest().live(),
                            done,
                            key,
                        );
                    } else {
                        preserve::lemma_compaction_keeps_lookups(
                            start.levels(),
                            self.levels(),
                            start.reserved(),
                            start.manifest().live(),
                            done,
                            key,
                        );
                    }
                }
            }
        }
        Ok(Some(done))
    }

    /// Level `level` is full, and is not the last.
    pub open spec fn full_level(&self, level: int) -> bool {
        0 <= level < self.levels().len() - 1 && self.level_score(level).spec_is_full()
    }

    /// A compaction of level `level` is sure to be done: the level has
    /// tables for it, and whatever task is chosen fits, see `task_fits`,
    /// and has two keys at which it can be split.
    pub open spec fn compactable(&self, level: int) -> bool {
        &&& choosable(self.levels(), self.reserved(), level)
        &&& forall|task: Task| #[trigger]
            chosen(self.levels(), self.reserved(), level, task) ==> task_fits(
                task,
                self.options(),
                self.next_id(),
            ) && !range::one_boundary(task)
    }

    /// Compactions of all full levels are sure to be done.
    pub open spec fn all_compactable(&self) -> bool {
        forall|level: int| #[trigger] self.full_level(level) ==> self.compactable(level)
    }

    /// No level is full.
    pub open spec fn none_full(&self) -> bool {
        forall|level: int| !#[trigger] self.full_level(level)
    }

    /// One round of the compaction worker number `idx`.
    ///
    /// The levels that are full are taken, the fullest first; for the
    /// first worker level 0 comes first where it is among them. Each is
    /// compacted in turn; a compaction that fails is given up. What the
    /// compactions have done comes back, in their order.
    pub fn run_compactor(&mut self, idx: usize) -> (done: Vec<Compacted>)
        requires
            old(self).wf(),
        ensures
            final(self).wf(),
            final(self).options() == old(self).options(),
            final(self).reserved() == old(self).reserved(),
            final(self).next_id() >= old(self).next_id(),
            done@.len() == 0 ==> final(self).levels() == old(self).levels()
                && final(self).manifest() == old(self).manifest(),
            forall|k: int| 0 <= k < done@.len() ==> well_done(#[trigger] done@[k]),
            forall|k: int|
                0 <= k < done@.len() ==> old(self).full_level(
                    (#[trigger] done@[k]).task.this_level_id as int,
                ),
            old(self).none_full() ==> done@.len() == 0,
            !old(self).none_full() && old(self).all_compactable() ==> done@.len() > 0,
            exists|steps: Seq<Seq<Seq<Arc<SsTable>>>>| #[trigger]
                installed_all(old(self).levels(), final(self).levels(), done@, steps),
    {
        let ghost start = *self;
        let ghost steps: Seq<Seq<Seq<Arc<SsTable>>>> = seq![self.levels()];
        let picked = self.pick_compact_levels();
        let ghost chosen = picked@;
        let prios = if idx == 0 {
            move_l0_to_front(picked)
        } else {
            picked
        };
        proof {
            assert forall|a: int| 0 <= a < prios@.len() implies (#[trigger] prios@[a]).level
                < self.levels().len() - 1 && start.full_level(prios@[a].level as int)
                && prios@[a].score.spec_is_full() by {
                assert(prios@.contains(prios@[a]));
                assert(chosen.contains(prios@[a]));
                let k = choose|k: int| 0 <= k < chosen.len() && chosen[k] == prios@[a];
                assert(chosen[k].level < self.levels().len() - 1);
            }
            if !start.none_full() {
                let l = choose|l: int| start.full_level(l);
                let a = choose|a: int| 0 <= a < chosen.len() && (#[trigger] chosen[a]).level == l;
                assert(prios@.len() > 0);
            }
            if start.none_full() && prios@.len() > 0 {
                assert(start.full_level(prios@[0].level as int));
            }
        }
        let mut done: Vec<Compacted> = Vec::new();
        let mut i: usize = 0;
        while i < prios.len()
            invariant
                i <= prios@.len(),
                self.wf(),
                self.options() == old(self).options(),
                self.reserved() == old(self).reserved(),
                self.next_id() >= old(self).next_id(),
                self.levels().len() == old(self).levels().len(),
                forall|a: int|
                    0 <= a < prios@.len() ==> (#[trigger] prios@[a]).level < self.levels().len()
                        - 1 && start.full_level(prios@[a].level as int)
                        && prios@[a].score.spec_is_full(),
                start == *old(self),
                i == 0 ==> *self == start,
                i > 0 && start.all_compactable() ==> done@.len() > 0,
                done@.len() <= i,
                installed_all(start.levels(), self.levels(), done@, steps),
                start.none_full() ==> prios@.len() == 0,
                !start.none_full() ==> prios@.len() > 0,
                forall|k: int|
                    0 <= k < done@.len() ==> start.full_level(
                        (#[trigger] done@[k]).task.this_level_id as int,
                    ),
                done@.len() == 0 ==> self.levels() == old(self).levels()
                    && self.manifest() == old(self).manifest(),
                forall|k: int| 0 <= k < done@.len() ==> well_done(#[trigger] done@[k]),
            ensures
                i == prios@.len(),
            decreases prios@.len() - i,
        {
            let p = prios[i];
            if !p.score.is_full() {
                assert(false);
                break;
            }
            proof {
                if i == 0 && start.all_compactable() {
                    assert(start.full_level(p.level as int));
                    assert(start.compactable(p.level as int));
                }
            }
            let ghost levels_before = self.levels();
            match self.do_compact(idx, p) {
                Ok(Some(compacted)) => {
                    let ghost before = done@;
                    done.push(compacted);
                    proof {
                        let longer = steps.push(self.levels());
                        assert forall|k: int| 0 <= k < done@.len() implies replaced(
                            longer[k],
                            longer[k + 1],
                            (#[trigger] done@[k]).task,
                            done@[k].created@,
                        ) by {
                            if k < before.len() {
                                assert(done@[k] == before[k]);
                                assert(longer[k] == steps[k] && longer[k + 1] == steps[k + 1]);
                            } else {
                                assert(longer[k] == levels_before);
                            }
                        }
                        steps = longer;
                    }
                    assert forall|k: int| 0 <= k < done@.len() implies well_done(
                        #[trigger] done@[k],
                    ) && start.full_level(done@[k].task.this_level_id as int) by {
                        if k < before.len() {
                            assert(done@[k] == before[k]);
                        }
                    }
                },
                Ok(None) => {},
                Err(_) => {},
            }
            i += 1;
        }
        done
    }

    /// Hands out the records of the MANIFEST that are to be written to its
    /// file.
    pub fn take_manifest_records(&mut self) -> (bytes: Vec<u8>)
        requires
            old(self).wf(),
        ensures
            final(self).wf(),
            bytes@ == old(self).manifest().pending(),
            final(self).manifest().pending().len() == 0,
            final(self).manifest().live() == old(self).manifest().live(),
            final(self).manifest().log() == old(self).manifest().log(),
            final(self).levels() == old(self).levels(),
            final(self).options() == old(self).options(),
            final(self).reserved() == old(self).reserved(),
            final(self).next_id() == old(self).next_id(),
    {
        self.manifest.take_pending()
    }

    /// The tables, the MANIFEST, the next id and the options are those of
    /// `other`.
    pub open spec fn same_tables(&self, other: &Self) -> bool {
        &&& self.levels() == other.levels()
        &&& self.manifest() == other.manifest()
        &&& self.next_id() == other.next_id()
        &&& self.options() == other.options()
    }

    /// The value that is shown for the key.
    ///
    /// Where every table is sound this is what the levels have stored for
    /// the key, and nothing where that is empty. An error shows that a
    /// table is not sound.
    pub fn get(&self, key: &[u8]) -> (r: Result<Option<Vec<u8>>, LsmError>)
        requires
            self.wf(),
        ensures
            self.all_sound() ==> r is Ok && view_of(r->Ok_0) == shown(
                stored_value(self.levels(), key@),
            ),
    {
        let l0 = &self.levels[0];
        assert(self.levels()[0] == l0@);
        let ghost newest = newest_first(l0@);
        let n = l0.len();
        let mut iters: Vec<Box<SsTableIterator>> = Vec::with_capacity(n);
        let mut j: usize = 0;
        while j < n
            invariant
                j <= n == l0@.len(),
                self.wf(),
                self.levels()[0] == l0@,
                newest == newest_first(l0@),
                iters@.len() == j,
                forall|k: int| 0 <= k < j ==> (#[trigger] iters@[k]).wf(),
                forall|k: int| 0 <= k < j ==> (#[trigger] iters@[k]).table() == *newest[k],
                self.all_sound() ==> forall|k: int|
                    0 <= k < j ==> (#[trigger] iters@[k]).reliable() && seeked(
                        newest[k].entries(),
                        key@,
                        iters@[k].remaining(),
                    ),
            decreases n - j,
        {
            let table = share(&l0[n - 1 - j]);
            assert(table == newest[j as int]);
            assert(table.wf()) by {
                assert(self.levels()[0][n - 1 - j].wf());
            }
            proof {
                if self.all_sound() {
                    assert(self.levels()[0][n - 1 - j].sound());
                }
            }
            let iter = match SsTableIterator::create_and_seek_to_key(table, key) {
                Ok(iter) => iter,
                Err(e) => { return Err(e); },
            };
            iters.push(Box::new(iter));
            j += 1;
        }
        if n > 0 {
            let ghost sources = MergeIterator::<SsTableIterator>::remaining_of(iters@);
            let iter = MergeIterator::create(iters);
            proof {
                if self.all_sound() {
                    assert forall|k: int| 0 <= k < newest.len() implies (
                    #[trigger] newest[k]).intact() && seeked(
                        newest[k].entries(),
                        key@,
                        sources[k],
                    ) by {
                        assert(self.levels()[0][n - 1 - k].sound());
                        assert(iters@[k].reliable());
                    }
                    lemma_merged_lookup(newest, sources, key@, iter.current());
                }
            }
            if iter.is_valid() && compare_keys(iter.key(), key) == KeyOrder::Equal {
                let value = iter.value();
                if value.is_empty() {
                    return Ok(None);
                }
                return Ok(Some(vstd::slice::slice_to_vec(value)));
            }
        } else {
            proof {
                lemma_first_value_none(newest, key@, 0);
            }
        }
        let num = self.levels.len();
        let mut i: usize = 1;
        while i < num
            invariant
                1 <= i <= num == self.levels@.len(),
                self.wf(),
                self.all_sound() ==> stored_value(self.levels(), key@) == deeper_value(
                    self.levels(),
                    key@,
                    i as int,
                ),
            decreases num - i,
        {
            let tables = &self.levels[i];
            assert(self.levels()[i as int] == tables@);
            if tables.len() > 0 {
                let idx = find_table_idx(tables, key);
                let table = &tables[idx];
                assert(self.levels()[i as int][idx as int] == *table);
                assert(table.wf());
                if table.may_contain(key) {
                    let iter = match SsTableIterator::create_and_seek_to_key(share(table), key) {
                        Ok(iter) => iter,
                        Err(e) => {
                            assert(!self.all_sound()) by {
                                if self.all_sound() {
                                    assert(self.levels()[i as int][idx as int].sound());
                                }
                            }
                            return Err(e);
                        },
                    };
                    proof {
                        if self.all_sound() {
                            assert(self.levels()[i as int][idx as int].sound());
                            lemma_seek_hit(table.entries(), key@, iter.remaining());
                        }
                    }
                    if iter.is_valid() && compare_keys(iter.key(), key) == KeyOrder::Equal {
                        let value = iter.value();
                        if value.is_empty() {
                            return Ok(None);
                        }
                        return Ok(Some(vstd::slice::slice_to_vec(value)));
                    }
                } else {
                    proof {
                        if self.all_sound() {
                            assert(self.levels()[i as int][idx as int].sound());
                            lemma_bloom_denies(&**table, key@);
                        }
                    }
                }
            }
            i += 1;
        }
        Ok(None)
    }
}

/// The tables that were opened: each is well formed and live at a level
/// that the engine has, no two have one id, and every live id has its
/// table.
pub open spec fn opened_ok(tables: Seq<Arc<SsTable>>, live: Map<u64, usize>, num_levels: usize) -> bool {
    &&& forall|i: int|
        0 <= i < tables.len() ==> {
            let table = #[trigger] tables[i];
            &&& table.wf()
            &&& live.contains_key(table.id())
            &&& live[table.id()] < num_levels
        }
    &&& ids_distinct(tables)
    &&& forall|id: u64| #[trigger]
        live.contains_key(id) ==> exists|i: int|
            0 <= i < tables.len() && (#[trigger] tables[i]).id() == id
}

/// `level` holds the tables of `tables` that are live at level `l`, and
/// no two of them have one id.
pub open spec fn level_of_tables(
    tables: Seq<Arc<SsTable>>,
    live: Map<u64, usize>,
    l: int,
    level: Seq<Arc<SsTable>>,
) -> bool {
    &&& forall|x: Arc<SsTable>| #[trigger]
        level.contains(x) <==> tables.contains(x) && live[x.id()] == l
    &&& ids_distinct(level)
    &&& forall|i: int|
        0 <= i < level.len() ==> (#[trigger] level[i]).wf() && live.contains_key(level[i].id())
}

/// Every live table stands in the levels.
pub open spec fn every_live_placed(levels: Seq<Seq<Arc<SsTable>>>, live: Map<u64, usize>) -> bool {
    forall|id: u64| #[trigger]
        live.contains_key(id) ==> exists|l: int, i: int|
            0 <= l < levels.len() && 0 <= i < levels[l].len() && (#[trigger] levels[l][i]).id()
                == id
}

/// The files are those of the live tables of a database of `num_levels`
/// levels: every live table has a file, no two files of live tables have
/// one id, and each file of a live table opens as a table of a level that
/// the database has.
pub open spec fn files_fit(
    files: Seq<(u64, FileObject)>,
    live: Map<u64, usize>,
    num_levels: usize,
) -> bool {
    &&& forall|i: int|
        0 <= i < files.len() && live.contains_key((#[trigger] files[i]).0) ==> {
            &&& live[files[i].0] < num_levels
            &&& files[i].0 < u64::MAX
            &&& SsTable::open_error(files[i].1@) is None
        }
    &&& forall|i: int, j: int|
        0 <= i < j < files.len() && live.contains_key((#[trigger] files[i]).0) ==> files[i].0 != (
        #[trigger] files[j]).0
    &&& forall|id: u64| #[trigger]
        live.contains_key(id) ==> exists|i: int| 0 <= i < files.len() && (#[trigger] files[i]).0 == id
}

/// A database with this MANIFEST and these table files opens under the
/// options: the options ask for a number of levels that an engine can
/// have, the MANIFEST replays, and the files are those of its live tables.
pub open spec fn opens(opt: LsmOptions, manifest: Seq<u8>, files: Seq<(u64, FileObject)>) -> bool {
    &&& 2 <= opt.num_levels <= MAX_LEVEL
    &&& crate::manifest::replayed(manifest, 0, crate::manifest::nothing_replayed()) matches Ok(
        state,
    ) && files_fit(files, state.live, opt.num_levels)
}

/// Why a table is not taken into level 0, if it is not: with `Overflow`
/// where the ids are exhausted, and else as the table is not built.
pub open spec fn push_error(next_id: u64, builder: SsTableBuilder) -> Option<LsmError> {
    if next_id == u64::MAX {
        Some(LsmError::Overflow)
    } else {
        crate::table::builder::build_error(builder.layout(), builder.options())
    }
}

/// `next` is the id that the next table gets: one above the largest live
/// id, and zero where no table is live.
pub open spec fn is_next_id(live: Map<u64, usize>, next: u64) -> bool {
    &&& forall|id: u64| #[trigger] live.contains_key(id) ==> id < next
    &&& next == 0 || live.contains_key((next - 1) as u64)
}

/// Each table of the levels holds the content of the file with its id.
pub open spec fn levels_from_files(
    levels: Seq<Seq<Arc<SsTable>>>,
    files: Seq<(u64, FileObject)>,
) -> bool {
    forall|l: int, i: int|
        0 <= l < levels.len() && 0 <= i < levels[l].len() ==> exists|k: int|
            0 <= k < files.len() && (#[trigger] files[k]).0 == (#[trigger] levels[l][i]).id()
                && files[k].1@ == levels[l][i].data()
}

/// Each of the tables holds the content of the file with its id.
pub open spec fn from_files(tables: Seq<Arc<SsTable>>, files: Seq<(u64, FileObject)>) -> bool {
    forall|i: int|
        0 <= i < tables.len() ==> exists|k: int|
            0 <= k < files.len() && (#[trigger] files[k]).0 == (#[trigger] tables[i]).id()
                && files[k].1@ == tables[i].data()
}

/// Opens the files whose ids are live, and gives the tables with the id
/// above the largest of theirs.
fn open_tables(manifest: &ManifestFile, files: Vec<(u64, FileObject)>, num_levels: usize) -> (r:
    Result<(Vec<Arc<SsTable>>, u64), LsmError>)
    requires
        manifest.wf(),
    ensures
        r matches Ok(opened) ==> opened_ok(opened.0@, manifest.live(), num_levels) && (forall|
            id: u64,
        | #[trigger] manifest.live().contains_key(id) ==> id < opened.1) && is_next_id(
            manifest.live(),
            opened.1,
        ) && from_files(opened.0@, files@),
        r is Ok <==> files_fit(files@, manifest.live(), num_levels),
{
    let ghost live = manifest.live();
    let ghost given = files@;
    let mut rest = files;
    let mut tables: Vec<Arc<SsTable>> = Vec::new();
    let mut seen: HashSet<u64> = HashSet::new();
    let mut next: u64 = 0;
    while rest.len() > 0
        invariant
            live == manifest.live(),
            manifest.wf(),
            given == files@,
            rest@.len() <= given.len(),
            rest@ == given.take(rest@.len() as int),
            forall|id: u64| #[trigger]
                seen@.contains(id) <==> live.contains_key(id) && exists|k: int|
                    rest@.len() <= k < given.len() && (#[trigger] given[k]).0 == id,
            seen@.finite(),
            next == 0 || seen@.contains((next - 1) as u64),
            from_files(tables@, given),
            forall|k: int|
                rest@.len() <= k < given.len() && live.contains_key((#[trigger] given[k]).0) ==> {
                    &&& live[given[k].0] < num_levels
                    &&& given[k].0 < u64::MAX
                    &&& SsTable::open_error(given[k].1@) is None
                },
            forall|i: int, j: int|
                rest@.len() <= i < j < given.len() && live.contains_key((#[trigger] given[i]).0)
                    ==> given[i].0 != (#[trigger] given[j]).0,
            forall|id: u64| seen@.contains(id) ==> #[trigger] live.contains_key(id),
            forall|id: u64| #[trigger]
                seen@.contains(id) ==> id < next && exists|i: int|
                    0 <= i < tables@.len() && (#[trigger] tables@[i]).id() == id,
            forall|i: int|
                0 <= i < tables@.len() ==> {
                    let table = #[trigger] tables@[i];
                    &&& table.wf()
                    &&& seen@.contains(table.id())
                    &&& live.contains_key(table.id())
                    &&& live[table.id()] < num_levels
                },
            ids_distinct(tables@),
        decreases rest@.len(),
    {
        let ghost at = rest@.len() - 1;
        let ghost seen_before = seen@;
        let (id, file) = match rest.pop() {
            Some(entry) => entry,
            None => { return Err(LsmError::MissingTable); },
        };
        assert(given[at] == (id, file));
        assert(rest@ =~= given.take(at));
        match manifest.level_of(id) {
            None => {
                assert forall|other: u64| #[trigger]
                    seen@.contains(other) <==> live.contains_key(other) && exists|k: int|
                        rest@.len() <= k < given.len() && (#[trigger] given[k]).0 == other by {
                    if seen@.contains(other) {
                        let k = choose|k: int|
                            at + 1 <= k < given.len() && (#[trigger] given[k]).0 == other;
                        assert(rest@.len() <= k < given.len() && given[k].0 == other);
                    }
                    if live.contains_key(other) && exists|k: int|
                        rest@.len() <= k < given.len() && (#[trigger] given[k]).0 == other {
                        let k = choose|k: int|
                            rest@.len() <= k < given.len() && (#[trigger] given[k]).0 == other;
                        assert(k != at);
                        assert(at + 1 <= k < given.len() && given[k].0 == other);
                    }
                }
            },
            Some(level) => {
                proof {
                    assert(live.contains_key(given[at].0));
                    if seen@.contains(id) {
                        let k = choose|k: int|
                            at + 1 <= k < given.len() && (#[trigger] given[k]).0 == id;
                        assert(given[k].0 == given[at].0);
                    }
                }
                if level >= num_levels {
                    return Err(LsmError::InvalidLevel);
                }
                if seen.contains(&id) {
                    return Err(LsmError::MissingTable);
                }
                if id == u64::MAX {
                    return Err(LsmError::Overflow);
                }
                let table = match SsTable::open(id, file) {
                    Ok(table) => table,
                    Err(e) => { return Err(e); },
                };
                let ghost before = tables@;
                proof {
                    assert forall|j: int| at < j < given.len() implies given[at].0 != (
                    #[trigger] given[j]).0 by {
                        if given[j].0 == id {
                            assert(seen_before.contains(id));
                        }
                    }
                }
                seen.insert(id);
                if id >= next {
                    next = id + 1;
                }
                tables.push(Arc::new(table));
                proof {
                    assert forall|i: int| 0 <= i < tables@.len() implies exists|k: int|
                        0 <= k < given.len() && (#[trigger] given[k]).0 == (
                        #[trigger] tables@[i]).id() && given[k].1@ == tables@[i].data() by {
                        if i < before.len() {
                            assert(tables@[i] == before[i]);
                            let k = choose|k: int|
                                0 <= k < given.len() && (#[trigger] given[k]).0 == before[i].id()
                                    && given[k].1@ == before[i].data();
                            assert(given[k].0 == tables@[i].id());
                        } else {
                            assert(given[at].0 == tables@[i].id() && given[at].1@
                                == tables@[i].data());
                        }
                    }
                    assert forall|other: u64| #[trigger] seen@.contains(other) implies other < next
                        && exists|i: int|
                        0 <= i < tables@.len() && (#[trigger] tables@[i]).id() == other by {
                        if other == id {
                            assert(tables@[tables@.len() - 1].id() == id);
                        } else {
                            let i = choose|i: int|
                                0 <= i < before.len() && (#[trigger] before[i]).id() == other;
                            assert(tables@[i].id() == other);
                        }
                    }
                    assert forall|i: int, j: int| 0 <= i < j < tables@.len() implies (
                    #[trigger] tables@[i]).id() != (#[trigger] tables@[j]).id() by {
                        if j == tables@.len() - 1 {
                            assert(before[i] == tables@[i]);
                        }
                    }
                    assert forall|other: u64| #[trigger]
                        seen@.contains(other) <==> live.contains_key(other) && exists|k: int|
                            rest@.len() <= k < given.len() && (#[trigger] given[k]).0
                                == other by {
                        if seen_before.contains(other) {
                            let k = choose|k: int|
                                at + 1 <= k < given.len() && (#[trigger] given[k]).0 == other;
                            assert(rest@.len() <= k < given.len() && given[k].0 == other);
                        }
                        if other == id {
                            assert(rest@.len() <= at < given.len() && given[at].0 == other);
                        }
                        if other != id && live.contains_key(other) && exists|k: int|
                            rest@.len() <= k < given.len() && (#[trigger] given[k]).0 == other {
                            let k = choose|k: int|
                                rest@.len() <= k < given.len() && (#[trigger] given[k]).0
                                    == other;
                            assert(k != at);
                            assert(at + 1 <= k < given.len() && given[k].0 == other);
                        }
                    }
                }
            },
        }
    }
    proof {
        if files_fit(given, live, num_levels) {
            assert(seen@ =~= live.dom()) by {
                assert forall|id: u64| live.contains_key(id) implies seen@.contains(id) by {
                    let i = choose|i: int| 0 <= i < given.len() && (#[trigger] given[i]).0 == id;
                    assert(rest@.len() <= i < given.len() && given[i].0 == id);
                }
            }
        }
    }
    if seen.len() != manifest.len() {
        return Err(LsmError::MissingTable);
    }
    proof {
        assert(seen@.subset_of(live.dom()));
        vstd::set_lib::lemma_subset_equality(seen@, live.dom());
        assert forall|id: u64| #[trigger] live.contains_key(id) implies exists|i: int|
            0 <= i < given.len() && (#[trigger] given[i]).0 == id by {
            assert(seen@.contains(id));
            let k = choose|k: int| rest@.len() <= k < given.len() && (#[trigger] given[k]).0 == id;
            assert(0 <= k < given.len() && given[k].0 == id);
        }
        assert(files_fit(given, live, num_levels));
        assert forall|id: u64| #[trigger] live.contains_key(id) implies id < next && exists|i: int|
            0 <= i < tables@.len() && (#[trigger] tables@[i]).id() == id by {
            assert(seen@.contains(id));
        }
    }
    Ok((tables, next))
}

/// The tables that are live at level `l`, in the order in which they
/// stand.
fn tables_at(tables: &Vec<Arc<SsTable>>, manifest: &ManifestFile, l: usize) -> (pool: Vec<
    Arc<SsTable>,
>)
    requires
        manifest.wf(),
        ids_distinct(tables@),
        forall|i: int|
            0 <= i < tables@.len() ==> (#[trigger] tables@[i]).wf() && manifest.live().contains_key(
                tables@[i].id(),
            ),
    ensures
        level_of_tables(tables@, manifest.live(), l as int, pool@),
{
    let ghost live = manifest.live();
    let mut pool: Vec<Arc<SsTable>> = Vec::new();
    let ghost from: Seq<int> = Seq::empty();
    let mut i: usize = 0;
    while i < tables.len()
        invariant
            i <= tables@.len(),
            live == manifest.live(),
            manifest.wf(),
            ids_distinct(tables@),
            forall|k: int|
                0 <= k < tables@.len() ==> (#[trigger] tables@[k]).wf() && live.contains_key(
                    tables@[k].id(),
                ),
            from.len() == pool@.len(),
            forall|k: int|
                0 <= k < pool@.len() ==> 0 <= #[trigger] from[k] < i && pool@[k] == tables@[from[k]]
                    && live[pool@[k].id()] == l,
            forall|a: int, b: int| 0 <= a < b < pool@.len() ==> #[trigger] from[a] < #[trigger] from[b],
            forall|k: int|
                0 <= k < i && live[(#[trigger] tables@[k]).id()] == l ==> pool@.contains(tables@[k]),
        decreases tables@.len() - i,
    {
        let table = &tables[i];
        let ghost before = pool@;
        if manifest.level_of(table.id()) == Some(l) {
            pool.push(share(table));
            proof {
                from = from.push(i as int);
                assert(pool@[pool@.len() - 1] == tables@[i as int]);
                assert forall|k: int|
                    0 <= k < i + 1 && live[(#[trigger] tables@[k]).id()] == l implies pool@.contains(
                    tables@[k],
                ) by {
                    if k < i {
                        assert(before.contains(tables@[k]));
                        let at = choose|at: int| 0 <= at < before.len() && before[at] == tables@[k];
                        assert(pool@[at] == tables@[k]);
                    }
                }
            }
        }
        i += 1;
    }
    proof {
        assert forall|x: Arc<SsTable>| #[trigger]
            pool@.contains(x) <==> tables@.contains(x) && live[x.id()] == l by {
            if pool@.contains(x) {
                let k = choose|k: int| 0 <= k < pool@.len() && pool@[k] == x;
                assert(tables@[from[k]] == x);
            }
            if tables@.contains(x) && live[x.id()] == l {
                let k = choose|k: int| 0 <= k < tables@.len() && tables@[k] == x;
                assert(pool@.contains(tables@[k]));
            }
        }
        assert forall|a: int, b: int| 0 <= a < b < pool@.len() implies (#[trigger] pool@[a]).id() != (
        #[trigger] pool@[b]).id() by {
            assert(from[a] < from[b]);
            assert(tables@[from[a]].id() != tables@[from[b]].id());
        }
        assert forall|k: int| 0 <= k < pool@.len() implies (#[trigger] pool@[k]).wf()
            && live.contains_key(pool@[k].id()) by {
            assert(pool@[k] == tables@[from[k]]);
        }
    }
    pool
}

/// The limit of a level: the limit `base` of level 0, times `factor` for
/// each level that it lies deeper; the largest number where that is too
/// large.
pub open spec fn level_limit(base: usize, factor: usize, level: nat) -> usize
    decreases level,
{
    if level == 0 {
        base
    } else {
        let above = level_limit(base, factor, (level - 1) as nat);
        if above * factor <= usize::MAX {
            (above * factor) as usize
        } else {
            usize::MAX
        }
    }
}

/// The number of tables of the target size that the size for level 0
/// holds; zero for a target size of zero.
pub open spec fn file_size_base(opt: LsmOptions) -> usize {
    if opt.target_file_size_base == 0 {
        0
    } else {
        opt.max_bytes_for_level_base / opt.target_file_size_base
    }
}

/// The bytes of the first `upto` tables that are not reserved; the
/// largest number where they are more.
pub open spec fn free_size(tables: Seq<Arc<SsTable>>, reserved: Set<u64>, upto: int) -> usize
    decreases upto,
{
    if upto <= 0 {
        0
    } else {
        let before = free_size(tables, reserved, upto - 1);
        if reserved.contains(tables[upto - 1].id()) {
            before
        } else {
            range::capped_sum(before, tables[upto - 1].spec_size())
        }
    }
}

/// The table has keys between the key of `lower` and the key of `upper`.
pub open spec fn in_span(table: SsTable, lower: Bound<Seq<u8>>, upper: Bound<Seq<u8>>) -> bool {
    &&& match lower {
        Bound::Included(key) => !key_lt(table.biggest(), key),
        Bound::Excluded(key) => !key_lt(table.biggest(), key),
        Bound::Unbounded => true,
    }
    &&& match upper {
        Bound::Included(key) => !key_lt(key, table.smallest()),
        Bound::Excluded(key) => !key_lt(key, table.smallest()),
        Bound::Unbounded => true,
    }
}

/// Whether the table has keys between the key of `lower` and the key of
/// `upper`.
pub fn in_bounds(table: &SsTable, lower: Bound<&[u8]>, upper: Bound<&[u8]>) -> (inside: bool)
    ensures
        inside == in_span(
            *table,
            crate::mem_table::bound_view(lower),
            crate::mem_table::bound_view(upper),
        ),
{
    let above = match lower {
        Bound::Included(key) => compare_keys(table.biggest_key(), key) != KeyOrder::Less,
        Bound::Excluded(key) => compare_keys(table.biggest_key(), key) != KeyOrder::Less,
        Bound::Unbounded => true,
    };
    let below = match upper {
        Bound::Included(key) => compare_keys(key, table.smallest_key()) != KeyOrder::Less,
        Bound::Excluded(key) => compare_keys(key, table.smallest_key()) != KeyOrder::Less,
        Bound::Unbounded => true,
    };
    above && below
}

/// Those of the first `upto` tables that have keys between the bounds.
pub open spec fn spanned(
    tables: Seq<Arc<SsTable>>,
    lower: Bound<Seq<u8>>,
    upper: Bound<Seq<u8>>,
    upto: int,
) -> Seq<Arc<SsTable>>
    decreases upto,
{
    if upto <= 0 {
        Seq::empty()
    } else {
        let before = spanned(tables, lower, upper, upto - 1);
        if in_span(*tables[upto - 1], lower, upper) {
            before.push(tables[upto - 1])
        } else {
            before
        }
    }
}

/// The tables of the first `upto` levels that have keys between the
/// bounds: those of level 0 the newest first, then those of each deeper
/// level in their order.
pub open spec fn spanned_levels(
    levels: Seq<Seq<Arc<SsTable>>>,
    lower: Bound<Seq<u8>>,
    upper: Bound<Seq<u8>>,
    upto: int,
) -> Seq<Arc<SsTable>>
    decreases upto,
{
    if upto <= 0 {
        Seq::empty()
    } else {
        let read = if upto == 1 {
            newest_first(levels[0])
        } else {
            levels[upto - 1]
        };
        spanned_levels(levels, lower, upper, upto - 1) + spanned(
            read,
            lower,
            upper,
            read.len() as int,
        )
    }
}

/// The ranges of keys of the two tables have a key in common.
pub open spec fn overlapping(a: SsTable, b: SsTable) -> bool {
    !(key_lt(a.biggest(), b.smallest()) || key_lt(b.biggest(), a.smallest()))
}

/// Whether the ranges of keys of the two tables have a key in common.
pub fn overlaps(a: &SsTable, b: &SsTable) -> (yes: bool)
    ensures
        yes == overlapping(*a, *b),
{
    !(compare_keys(a.biggest_key(), b.smallest_key()) == KeyOrder::Less || compare_keys(
        b.biggest_key(),
        a.smallest_key(),
    ) == KeyOrder::Less)
}

/// A table of the next level that overlaps the table is reserved.
pub open spec fn blocked(table: SsTable, next: Seq<Arc<SsTable>>, reserved: Set<u64>) -> bool {
    exists|i: int|
        0 <= i < next.len() && overlapping(*#[trigger] next[i], table) && reserved.contains(
            next[i].id(),
        )
}

/// The table can go into a compaction: it is not reserved, and neither is
/// a table of the next level that overlaps it.
pub open spec fn eligible(
    table: SsTable,
    reserved: Set<u64>,
    next: Seq<Arc<SsTable>>,
    reserved_next: Set<u64>,
) -> bool {
    !reserved.contains(table.id()) && !blocked(table, next, reserved_next)
}

/// Whether a table of the next level that overlaps the table is reserved.
pub fn is_blocked(table: &SsTable, next: &Vec<Arc<SsTable>>, reserved: &HashSet<u64>) -> (yes: bool)
    ensures
        yes == blocked(*table, next@, reserved@),
{
    let mut i: usize = 0;
    while i < next.len()
        invariant
            i <= next@.len(),
            forall|k: int|
                0 <= k < i ==> !(overlapping(*#[trigger] next@[k], *table) && reserved@.contains(
                    next@[k].id(),
                )),
        decreases next@.len() - i,
    {
        if overlaps(&next[i], table) && reserved.contains(&next[i].id()) {
            return true;
        }
        i += 1;
    }
    false
}

/// The table overlaps one of the chosen tables.
pub open spec fn in_family(table: SsTable, chosen: Seq<Arc<SsTable>>) -> bool {
    exists|i: int| 0 <= i < chosen.len() && overlapping(table, *#[trigger] chosen[i])
}

/// Those of the first `upto` tables of the next level that overlap one of
/// the chosen tables, in their order.
pub open spec fn family(next: Seq<Arc<SsTable>>, chosen: Seq<Arc<SsTable>>, upto: int) -> Seq<
    Arc<SsTable>,
>
    decreases upto,
{
    if upto <= 0 {
        Seq::empty()
    } else {
        let before = family(next, chosen, upto - 1);
        if in_family(*next[upto - 1], chosen) {
            before.push(next[upto - 1])
        } else {
            before
        }
    }
}

/// The tables of the next level that overlap one of the chosen tables, in
/// their order.
pub fn family_of(next: &Vec<Arc<SsTable>>, chosen: &Vec<Arc<SsTable>>) -> (out: Vec<Arc<SsTable>>)
    ensures
        out@ == family(next@, chosen@, next@.len() as int),
{
    let mut out: Vec<Arc<SsTable>> = Vec::new();
    let mut i: usize = 0;
    while i < next.len()
        invariant
            i <= next@.len(),
            out@ == family(next@, chosen@, i as int),
        decreases next@.len() - i,
    {
        let mut k: usize = 0;
        let mut found = false;
        while k < chosen.len() && !found
            invariant
                k <= chosen@.len(),
                i < next@.len(),
                found ==> in_family(*next@[i as int], chosen@),
                !found ==> forall|c: int|
                    0 <= c < k ==> !overlapping(*next@[i as int], *#[trigger] chosen@[c]),
            decreases chosen@.len() - k + if found { 0int } else { 1int },
        {
            if overlaps(&next[i], &chosen[k]) {
                found = true;
            } else {
                k += 1;
            }
        }
        if found {
            out.push(share(&next[i]));
        }
        i += 1;
    }
    out
}

/// The ids of the tables.
pub open spec fn ids_of(tables: Seq<Arc<SsTable>>) -> Set<u64> {
    Set::new(|id: u64| exists|i: int| 0 <= i < tables.len() && (#[trigger] tables[i]).id() == id)
}

/// Level `level` has tables for a compaction: it is level 0, has a table,
/// and every table of it can be taken, or it is a deeper level and one of
/// its tables can be taken.
pub open spec fn choosable(
    levels: Seq<Seq<Arc<SsTable>>>,
    reserved: Seq<Set<u64>>,
    level: int,
) -> bool {
    if level == 0 {
        levels[0].len() > 0 && forall|i: int|
            0 <= i < levels[0].len() ==> eligible(
                *#[trigger] levels[0][i],
                reserved[0],
                levels[1],
                reserved[1],
            )
    } else {
        exists|i: int|
            0 <= i < levels[level].len() && eligible(
                *#[trigger] levels[level][i],
                reserved[level],
                levels[level + 1],
                reserved[level + 1],
            )
    }
}

/// The task is the one that is chosen for a compaction of level `level`:
/// all tables of level 0, the newest first, or the tables of a deeper level
/// that can be taken, the largest first, with the tables of the next level
/// that overlap one of them.
pub open spec fn chosen(
    levels: Seq<Seq<Arc<SsTable>>>,
    reserved: Seq<Set<u64>>,
    level: int,
    task: Task,
) -> bool {
    &&& task.this_level_id == level
    &&& task.next_level_id == level + 1
    &&& task.this_tables@.len() > 0
    &&& ids_distinct(task.this_tables@)
    &&& forall|x: Arc<SsTable>| #[trigger]
        task.this_tables@.contains(x) ==> levels[level].contains(x) && eligible(
            *x,
            reserved[level],
            levels[level + 1],
            reserved[level + 1],
        )
    &&& task.next_tables@ == family(
        levels[level + 1],
        task.this_tables@,
        levels[level + 1].len() as int,
    )
    &&& level == 0 ==> task.this_tables@ == newest_first(levels[0])
    &&& level > 0 ==> in_order(task.this_tables@, TableOrder::BySizeDescending) && forall|
        x: Arc<SsTable>,
    | #[trigger]
        levels[level].contains(x) && eligible(
            *x,
            reserved[level],
            levels[level + 1],
            reserved[level + 1],
        ) ==> task.this_tables@.contains(x)
}

/// The reservations with those of a task.
pub open spec fn reserved_for(reserved: Seq<Set<u64>>, task: Task) -> Seq<Set<u64>> {
    reserved.update(
        task.this_level_id as int,
        reserved[task.this_level_id as int].union(ids_of(task.this_tables@)),
    ).update(
        task.next_level_id as int,
        reserved[task.next_level_id as int].union(ids_of(task.next_tables@)),
    )
}

/// Puts the ids of the tables into the set.
fn add_ids(set: &mut HashSet<u64>, tables: &Vec<Arc<SsTable>>)
    ensures
        final(set)@ == old(set)@.union(ids_of(tables@)),
{
    let mut i: usize = 0;
    assert(set@ =~= old(set)@.union(ids_of(tables@.take(0))));
    while i < tables.len()
        invariant
            i <= tables@.len(),
            set@ == old(set)@.union(ids_of(tables@.take(i as int))),
        decreases tables@.len() - i,
    {
        set.insert(tables[i].id());
        proof {
            let grown = tables@.take(i + 1);
            let before = tables@.take(i as int);
            assert forall|id: u64| ids_of(grown).contains(id) <==> ids_of(before).contains(id) || id
                == tables@[i as int].id() by {
                if ids_of(grown).contains(id) {
                    let k = choose|k: int| 0 <= k < grown.len() && (#[trigger] grown[k]).id() == id;
                    if k < i {
                        assert(before[k].id() == id);
                    }
                }
                if ids_of(before).contains(id) {
                    let k = choose|k: int|
                        0 <= k < before.len() && (#[trigger] before[k]).id() == id;
                    assert(grown[k].id() == id);
                }
                if id == tables@[i as int].id() {
                    assert(grown[i as int].id() == id);
                }
            }
            assert(set@ =~= old(set)@.union(ids_of(grown)));
        }
        i += 1;
    }
    assert(tables@.take(tables@.len() as int) =~= tables@);
}

/// No priority has a score above that of one before it.
pub open spec fn descending(prios: Seq<TaskPriority>) -> bool {
    forall|a: int, b: int|
        0 <= a < b < prios.len() ==> !(#[trigger] prios[b]).score.spec_above(
            (#[trigger] prios[a]).score,
        )
}

/// Puts a priority behind those whose score it is not above.
pub fn insert_priority(prios: &mut Vec<TaskPriority>, pri: TaskPriority)
    requires
        descending(old(prios)@),
    ensures
        descending(final(prios)@),
        final(prios)@.len() == old(prios)@.len() + 1,
        forall|p: TaskPriority| #[trigger]
            final(prios)@.contains(p) <==> old(prios)@.contains(p) || p == pri,
{
    let mut at: usize = 0;
    while at < prios.len() && !pri.score.above(prios[at].score)
        invariant
            at <= prios@.len(),
            *prios == *old(prios),
            forall|k: int| 0 <= k < at ==> !pri.score.spec_above((#[trigger] prios@[k]).score),
        decreases prios@.len() - at,
    {
        at += 1;
    }
    let ghost before = prios@;
    prios.insert(at, pri);
    proof {
        assert forall|a: int, b: int| 0 <= a < b < prios@.len() implies !(
        #[trigger] prios@[b]).score.spec_above((#[trigger] prios@[a]).score) by {
            let a0 = if a < at { a } else { a - 1 };
            let b0 = if b < at { b } else { b - 1 };
            if a == at {
                assert(prios@[b] == before[b - 1]);
                if b - 1 > at {
                    assert(!before[b - 1].score.spec_above(before[at as int].score));
                }
                task::lemma_above_transitive(
                    before[b - 1].score,
                    pri.score,
                    before[at as int].score,
                );
            } else if b == at {
                assert(prios@[a] == before[a]);
            } else {
                assert(prios@[a] == before[a0] && prios@[b] == before[b0]);
            }
        }
        assert forall|p: TaskPriority| #[trigger]
            prios@.contains(p) <==> before.contains(p) || p == pri by {
            if prios@.contains(p) {
                let k = choose|k: int| 0 <= k < prios@.len() && prios@[k] == p;
                if k < at {
                    assert(before[k] == p);
                } else if k > at {
                    assert(before[k - 1] == p);
                }
            }
            if before.contains(p) {
                let k = choose|k: int| 0 <= k < before.len() && before[k] == p;
                let k1 = if k < at { k } else { k + 1 };
                assert(prios@[k1] == p);
            }
            if p == pri {
                assert(prios@[at as int] == p);
            }
        }
    }
}

/// Every table of the task is sound.
pub open spec fn task_sound(task: Task) -> bool {
    forall|j: int| 0 <= j < task.tables().len() ==> (#[trigger] task.tables()[j]).sound()
}

/// What each table of the task has from `key` on.
pub open spec fn task_sources(task: Task, key: Seq<u8>) -> Seq<Seq<(Seq<u8>, Seq<u8>)>> {
    Seq::new(
        task.tables().len(),
        |j: int| crate::key::from_key(task.tables()[j].entries(), key),
    )
}

/// The entries of the first `upto` tables, one table after the other.
pub open spec fn flat_tables(tables: Seq<Arc<SsTable>>, upto: int) -> Seq<(Seq<u8>, Seq<u8>)>
    decreases upto,
{
    if upto <= 0 {
        Seq::empty()
    } else {
        flat_tables(tables, upto - 1) + tables[upto - 1].entries()
    }
}

/// The entries of the first tables do not depend on the tables behind them.
pub proof fn lemma_flat_tables_prefix(a: Seq<Arc<SsTable>>, b: Seq<Arc<SsTable>>, upto: int)
    requires
        0 <= upto <= a.len() <= b.len(),
        forall|k: int| 0 <= k < a.len() ==> a[k] == b[k],
    ensures
        flat_tables(a, upto) == flat_tables(b, upto),
    decreases upto,
{
    if upto > 0 {
        lemma_flat_tables_prefix(a, b, upto - 1);
    }
}

/// The entries of each table of the task.
pub open spec fn task_entries(task: Task) -> Seq<Seq<(Seq<u8>, Seq<u8>)>> {
    Seq::new(task.tables().len(), |j: int| task.tables()[j].entries())
}

/// What a compaction of the task makes of the keys from `lower` up to
/// `upper`: the entries of the tables of the task in the order of their
/// keys, of entries with one key that of the table that comes first in the
/// task, from the first entry whose key is `lower` or sorts after it up to
/// the last under `upper`.
pub open spec fn compacted(task: Task, lower: Seq<u8>, upper: Bound<Seq<u8>>) -> Seq<
    (Seq<u8>, Seq<u8>),
> {
    crate::key::within(crate::key::from_key(merged(task_entries(task)), lower), upper)
}

/// The entries of sound tables are sorted.
pub proof fn lemma_task_entries_sorted(task: Task)
    requires
        task_sound(task),
    ensures
        crate::iterators::merge_iterator::sources_sorted(task_entries(task)),
        crate::key::entries_sorted(merged(task_entries(task))),
{
    let sources = task_entries(task);
    assert forall|j: int| 0 <= j < sources.len() implies crate::key::entries_sorted(
        #[trigger] sources[j],
    ) by {
        assert(task.tables()[j].sound());
    }
    crate::iterators::merge_iterator::lemma_merged_sorted(sources);
}

/// What a compaction makes of the keys up to a bound is sorted.
pub proof fn lemma_compacted_sorted(task: Task, lower: Seq<u8>, upper: Bound<Seq<u8>>)
    requires
        task_sound(task),
    ensures
        crate::key::entries_sorted(compacted(task, lower, upper)),
{
    lemma_task_entries_sorted(task);
    let from = crate::key::from_key(merged(task_entries(task)), lower);
    crate::key::lemma_from_key_sorted(merged(task_entries(task)), lower);
    crate::key::lemma_within_prefix(from, upper);
    let w = compacted(task, lower, upper);
    assert forall|i: int, j: int| 0 <= i < j < w.len() implies key_lt(
        #[trigger] w[i].0,
        #[trigger] w[j].0,
    ) by {
        assert(key_lt(from[i].0, from[j].0));
    }
}

/// A sub-compaction adds to what the sub-compactions before it have made
/// what the compaction makes of its sub-range.
pub proof fn lemma_compact_step(
    task: Task,
    res: Seq<range::KeyRange>,
    i: int,
    lower: Seq<u8>,
    upper: Seq<u8>,
    so_far: Seq<(Seq<u8>, Seq<u8>)>,
    piece: Seq<(Seq<u8>, Seq<u8>)>,
)
    requires
        task_sound(task),
        range::spans(res, lower, upper),
        0 <= i < res.len(),
        so_far == compacted(task, lower, range::reach(res, i, lower)),
        piece == crate::key::within(
            merged(task_sources(task, range::bound_key(res[i].0))),
            crate::lsm_iterator::end_view(res[i].1),
        ),
    ensures
        so_far + piece == compacted(task, lower, range::reach(res, i + 1, lower)),
{
    let all = merged(task_entries(task));
    let start = range::bound_key(res[i].0);
    let end = crate::lsm_iterator::end_view(res[i].1);
    let from = crate::key::from_key(all, lower);
    lemma_task_entries_sorted(task);
    assert(task_sources(task, start) =~= crate::iterators::merge_iterator::sources_from(
        task_entries(task),
        start,
    ));
    crate::iterators::merge_iterator::lemma_merged_from_key(task_entries(task), start);
    assert(crate::key::key_le(lower, start));
    crate::key::lemma_from_key_twice(all, lower, start);
    assert(crate::key::end_key(end) == range::bound_key(res[i].1));
    crate::key::lemma_within_parts(from, start, end);
    if i > 0 {
        assert(res[i - 1].1 is Excluded && range::bound_key(res[i - 1].1) == start);
    }
    assert(range::reach(res, i, lower) == Bound::Excluded(start));
}

/// The entries of tables, one table after the other, are those of the
/// first of them and then those of the rest.
pub proof fn lemma_flat_concat(a: Seq<Arc<SsTable>>, b: Seq<Arc<SsTable>>, upto: int)
    requires
        0 <= upto <= b.len(),
    ensures
        flat_tables(a + b, a.len() + upto) == flat_tables(a, a.len() as int) + flat_tables(
            b,
            upto,
        ),
    decreases upto,
{
    let all = a + b;
    if upto == 0 {
        lemma_flat_tables_prefix(a, all, a.len() as int);
        assert(flat_tables(a, a.len() as int) + flat_tables(b, 0) =~= flat_tables(
            a,
            a.len() as int,
        ));
    } else {
        lemma_flat_concat(a, b, upto - 1);
        assert(all[a.len() + upto - 1] == b[upto - 1]);
        assert(flat_tables(a, a.len() as int) + (flat_tables(b, upto - 1) + b[upto
            - 1].entries()) =~= (flat_tables(a, a.len() as int) + flat_tables(b, upto - 1))
            + b[upto - 1].entries());
    }
}

/// Where the entries of tables stand one table after the other, entry `x`
/// of table `k` stands behind the entries of the tables before it.
pub proof fn lemma_flat_index(tables: Seq<Arc<SsTable>>, upto: int, k: int, x: int)
    requires
        0 <= k < upto <= tables.len(),
        0 <= x < tables[k].entries().len(),
    ensures
        flat_tables(tables, k).len() + tables[k].entries().len() <= flat_tables(tables, upto).len(),
        flat_tables(tables, upto)[flat_tables(tables, k).len() + x] == tables[k].entries()[x],
    decreases upto,
{
    if k < upto - 1 {
        lemma_flat_index(tables, upto - 1, k, x);
    }
}

/// Intact tables whose entries, one table after the other, are sorted
/// stand in the order of their first keys.
pub proof fn lemma_flat_in_order(tables: Seq<Arc<SsTable>>)
    requires
        forall|k: int| 0 <= k < tables.len() ==> (#[trigger] tables[k]).wf() && tables[k].intact(),
        crate::key::entries_sorted(flat_tables(tables, tables.len() as int)),
    ensures
        in_order(tables, TableOrder::BySmallestKey),
{
    let n = tables.len() as int;
    let flat = flat_tables(tables, n);
    assert forall|a: int, b: int| 0 <= a < b < tables.len() implies order::precedes(
        *#[trigger] tables[a],
        *#[trigger] tables[b],
        TableOrder::BySmallestKey,
    ) by {
        assert(tables[a].wf() && tables[a].intact());
        assert(tables[b].wf() && tables[b].intact());
        tables[a].lemma_key_range();
        tables[b].lemma_key_range();
        lemma_flat_index(tables, n, a, 0);
        lemma_flat_index(tables, n, b, 0);
        lemma_flat_index(tables, b, a, 0);
        let at_a = flat_tables(tables, a).len() as int;
        let at_b = flat_tables(tables, b).len() as int;
        assert(at_a < at_b);
        assert(key_lt(flat[at_a].0, flat[at_b].0));
    }
}

/// The first of the tables from number `from` on that has the key has for
/// it what the first of their sequences of entries that has it has.
pub proof fn lemma_first_value_entries(
    tables: Seq<Arc<SsTable>>,
    sources: Seq<Seq<(Seq<u8>, Seq<u8>)>>,
    key: Seq<u8>,
    from: int,
)
    requires
        0 <= from,
        sources.len() == tables.len(),
        forall|j: int| 0 <= j < tables.len() ==> #[trigger] sources[j] == tables[j].entries(),
    ensures
        first_value(tables, key, from) == crate::iterators::merge_iterator::first_in(
            sources,
            key,
            from,
        ),
    decreases tables.len() - from,
{
    if from < tables.len() {
        assert(sources[from] == tables[from].entries());
        lemma_first_value_entries(tables, sources, key, from + 1);
    }
}

/// The first of tables that has a key is the first of all but the last
/// that has it, and the last where none of those has it.
pub proof fn lemma_first_value_last(tables: Seq<Arc<SsTable>>, key: Seq<u8>, from: int)
    requires
        0 <= from < tables.len(),
    ensures
        first_value(tables, key, from) == match first_value(tables.drop_last(), key, from) {
            Some(value) => Some(value),
            None => tables.last().value_of(key),
        },
    decreases tables.len() - from,
{
    let front = tables.drop_last();
    if from < tables.len() - 1 {
        assert(front[from] == tables[from]);
        lemma_first_value_last(tables, key, from + 1);
    } else {
        assert(tables[from] == tables.last());
        assert(first_value(tables, key, from + 1) is None);
        assert(first_value(front, key, from) is None);
    }
}

/// Tables whose entries, one table after the other, are sorted have for a
/// key what those entries have for it.
pub proof fn lemma_flat_value(tables: Seq<Arc<SsTable>>, key: Seq<u8>)
    requires
        crate::key::entries_sorted(flat_tables(tables, tables.len() as int)),
    ensures
        first_value(tables, key, 0) == value_in(flat_tables(tables, tables.len() as int), key),
    decreases tables.len(),
{
    let n = tables.len() as int;
    if n > 0 {
        let front = tables.drop_last();
        lemma_flat_tables_prefix(front, tables, n - 1);
        let a = flat_tables(front, n - 1);
        let b = tables[n - 1].entries();
        assert(flat_tables(tables, n) == a + b);
        assert forall|i: int, j: int| 0 <= i < j < a.len() implies key_lt(
            #[trigger] a[i].0,
            #[trigger] a[j].0,
        ) by {
            assert(key_lt((a + b)[i].0, (a + b)[j].0));
        }
        lemma_flat_value(front, key);
        crate::key::lemma_value_in_parts(a, b, key);
        lemma_first_value_last(tables, key, 0);
    }
}

/// The tables that a compaction has made have for each key between the
/// first and the last of the keys at which it could be split what the
/// tables of its task had for it: the value of the first of them that has
/// the key.
pub proof fn lemma_compaction_keeps_values(done: Compacted, key: Seq<u8>)
    requires
        well_done(done),
        task_sound(done.task),
        key_le(done.lower@, key),
        key_le(key, done.upper@),
    ensures
        first_value(done.created@, key, 0) == first_value(done.task.tables(), key, 0),
{
    lemma_compacted_sorted(done.task, done.lower@, Bound::Included(done.upper@));
    lemma_flat_value(done.created@, key);
    lemma_compacted_value(done.task, done.lower@, done.upper@, key);
}

/// What a compaction makes of the keys from `lower` to `upper` has for
/// each key between them the value of the first table of the task that has
/// the key.
pub proof fn lemma_compacted_value(task: Task, lower: Seq<u8>, upper: Seq<u8>, key: Seq<u8>)
    requires
        task_sound(task),
        crate::key::key_le(lower, key),
        crate::key::key_le(key, upper),
    ensures
        value_in(compacted(task, lower, Bound::Included(upper)), key) == first_value(
            task.tables(),
            key,
            0,
        ),
{
    lemma_task_entries_sorted(task);
    crate::key::lemma_span_value(merged(task_entries(task)), lower, upper, key);
    crate::iterators::merge_iterator::lemma_merged_value(task_entries(task), key);
    lemma_first_value_entries(task.tables(), task_entries(task), key, 0);
}

/// What sound tables have from a key on is sorted.
pub proof fn lemma_sources_sorted(task: Task, key: Seq<u8>)
    requires
        task_sound(task),
    ensures
        crate::iterators::merge_iterator::sources_sorted(task_sources(task, key)),
{
    let sources = task_sources(task, key);
    assert forall|j: int| 0 <= j < sources.len() implies crate::key::entries_sorted(
        #[trigger] sources[j],
    ) by {
        assert(task.tables()[j].sound());
        crate::key::lemma_from_key_sorted(task.tables()[j].entries(), key);
    }
}

/// Whether a table is large enough to be closed.
pub open spec fn full_table(l: crate::table::builder::Layout) -> bool {
    l.data_len + l.blocks * crate::block::SIZEOF_U16 >= crate::table::builder::TABLE_CAPACITY
}

/// The id of the next table after a sub-compaction has put the entries
/// `w` from number `pos` on into tables, with the table that is open laid
/// out as `l` and `first` saying that it has no entry yet. Each entry goes
/// into the open table; a table that is large enough is closed, gets the
/// next id, and a new one is begun. Fails with `Overflow` for an entry
/// without a key or with a part that does not fit its field and where the
/// ids are exhausted, and as laying out an entry or building a table fails.
#[verifier::opaque]
pub open spec fn packed(
    opts: LsmOptions,
    next_id: int,
    w: Seq<(Seq<u8>, Seq<u8>)>,
    pos: int,
    l: crate::table::builder::Layout,
    first: bool,
) -> Result<int, LsmError>
    decreases w.len() - pos, (if first {
        0int
    } else {
        1int
    }),
{
    if pos < 0 || (first && pos >= w.len()) {
        Ok(next_id)
    } else if pos < w.len() && (first || !full_table(l)) {
        if w[pos].0.len() == 0 || w[pos].0.len() > 0xFFFF || w[pos].1.len() > 0xFFFF {
            Err(LsmError::Overflow)
        } else {
            match crate::table::builder::entry_laid(l, opts, w[pos].0, w[pos].1) {
                Err(e) => Err(e),
                Ok(next) => packed(opts, next_id, w, pos + 1, next, false),
            }
        }
    } else {
        if next_id >= u64::MAX {
            Err(LsmError::Overflow)
        } else {
            match crate::table::builder::build_error(l, opts) {
                Some(e) => Err(e),
                None => packed(opts, next_id + 1, w, pos, crate::table::builder::no_layout(), true),
            }
        }
    }
}

/// Where no entry is left and no table is open, the sub-compaction is
/// done.
pub proof fn lemma_packed_done(opts: LsmOptions, next_id: int, w: Seq<(Seq<u8>, Seq<u8>)>, pos: int)
    requires
        pos >= w.len(),
    ensures
        packed(opts, next_id, w, pos, crate::table::builder::no_layout(), true) == Ok::<
            int,
            LsmError,
        >(next_id),
{
    reveal_with_fuel(packed, 1);
}

/// Where the open table takes an entry, the entry is laid out and the
/// sub-compaction goes on behind it.
pub proof fn lemma_packed_entry(
    opts: LsmOptions,
    next_id: int,
    w: Seq<(Seq<u8>, Seq<u8>)>,
    pos: int,
    l: crate::table::builder::Layout,
    first: bool,
)
    requires
        0 <= pos < w.len(),
        first || !full_table(l),
    ensures
        packed(opts, next_id, w, pos, l, first) == if w[pos].0.len() == 0 || w[pos].0.len() > 0xFFFF
            || w[pos].1.len() > 0xFFFF {
            Err::<int, LsmError>(LsmError::Overflow)
        } else {
            match crate::table::builder::entry_laid(l, opts, w[pos].0, w[pos].1) {
                Err(e) => Err(e),
                Ok(next) => packed(opts, next_id, w, pos + 1, next, false),
            }
        },
{
    reveal_with_fuel(packed, 1);
}

/// Where the open table takes no more entry, it is built under the next
/// id and the sub-compaction goes on with a new table.
pub proof fn lemma_packed_close(
    opts: LsmOptions,
    next_id: int,
    w: Seq<(Seq<u8>, Seq<u8>)>,
    pos: int,
    l: crate::table::builder::Layout,
)
    requires
        0 <= pos,
        pos >= w.len() || full_table(l),
    ensures
        packed(opts, next_id, w, pos, l, false) == if next_id >= u64::MAX {
            Err::<int, LsmError>(LsmError::Overflow)
        } else {
            match crate::table::builder::build_error(l, opts) {
                Some(e) => Err(e),
                None => packed(opts, next_id + 1, w, pos, crate::table::builder::no_layout(), true),
            }
        },
{
    reveal_with_fuel(packed, 1);
}

/// What a sub-compaction of the task reads: what the tables have from the
/// key of `lower` on, merged, up to `upper`.
pub open spec fn piece(task: Task, range: range::KeyRange) -> Seq<(Seq<u8>, Seq<u8>)> {
    crate::key::within(
        merged(task_sources(task, range::bound_key(range.0))),
        crate::lsm_iterator::end_view(range.1),
    )
}

/// The id of the next table after the sub-compactions of the sub-ranges
/// from number `i` on, one after the other; fails as the first of them
/// fails that does.
pub open spec fn packed_all(
    opts: LsmOptions,
    next_id: int,
    task: Task,
    ranges: Seq<range::KeyRange>,
    i: int,
) -> Result<int, LsmError>
    decreases ranges.len() - i,
{
    if i < 0 || i >= ranges.len() {
        Ok(next_id)
    } else {
        match packed(opts, next_id, piece(task, ranges[i]), 0, crate::table::builder::no_layout(), true) {
            Err(e) => Err(e),
            Ok(id) => packed_all(opts, id, task, ranges, i + 1),
        }
    }
}

/// The sub-ranges are a split of the span of the keys at which a
/// compaction of the task can be split.
pub open spec fn split_of(task: Task, ranges: Seq<range::KeyRange>) -> bool {
    exists|lower: Seq<u8>, upper: Seq<u8>| #[trigger]
        range::spans(ranges, lower, upper) && range::is_boundary(task, lower) && range::is_boundary(
            task,
            upper,
        )
}

/// The task fits: its tables are sound and can be counted, and however
/// the span of its keys is split, every sub-compaction succeeds, see
/// `packed_all`.
pub open spec fn task_fits(task: Task, opts: LsmOptions, next_id: u64) -> bool {
    &&& task_sound(task)
    &&& task.tables().len() <= usize::MAX
    &&& forall|ranges: Seq<range::KeyRange>| #[trigger]
        split_of(task, ranges) ==> packed_all(opts, next_id as int, task, ranges, 0) is Ok
}

/// Every block of every table of the task decodes.
pub open spec fn task_readable(task: Task) -> bool {
    forall|j: int| 0 <= j < task.tables().len() ==> (#[trigger] task.tables()[j]).readable()
}

/// An iterator on each table of a task, at the first entry whose key is
/// `key` or sorts after it.
///
/// Fails as a table fails to be read, and with `Overflow` where the tables
/// are more than can be counted; it succeeds where every block of every
/// table decodes.
fn seek_all(task: &Task, key: &[u8]) -> (r: Result<Vec<Box<SsTableIterator>>, LsmError>)
    requires
        task.wf(),
    ensures
        r matches Ok(iters) ==> {
            &&& iters@.len() == task.tables().len()
            &&& forall|j: int| 0 <= j < iters@.len() ==> (#[trigger] iters@[j]).wf()
            &&& task_sound(*task) ==> forall|j: int|
                0 <= j < iters@.len() ==> (#[trigger] iters@[j]).reliable() && iters@[j].remaining()
                    == task_sources(*task, key@)[j]
        },
        task.tables().len() > usize::MAX ==> r == Err::<Vec<Box<SsTableIterator>>, LsmError>(
            LsmError::Overflow,
        ),
        task_readable(*task) && task.tables().len() <= usize::MAX ==> r is Ok,
{
    let n = task.this_tables.len();
    if task.next_tables.len() > usize::MAX - n {
        return Err(LsmError::Overflow);
    }
    let total = n + task.next_tables.len();
    let mut iters: Vec<Box<SsTableIterator>> = Vec::new();
    let mut j: usize = 0;
    while j < total
        invariant
            j <= total,
            n == task.this_tables@.len(),
            total == task.tables().len(),
            task.wf(),
            iters@.len() == j,
            forall|k: int| 0 <= k < j ==> (#[trigger] iters@[k]).wf(),
            task_sound(*task) ==> forall|k: int|
                0 <= k < j ==> (#[trigger] iters@[k]).reliable() && iters@[k].remaining()
                    == task_sources(*task, key@)[k],
            total <= usize::MAX,
        decreases total - j,
    {
        let table = if j < n {
            &task.this_tables[j]
        } else {
            &task.next_tables[j - n]
        };
        assert(*table == task.tables()[j as int]);
        assert(table.wf());
        let iter = match SsTableIterator::create_and_seek_to_key(share(table), key) {
            Ok(iter) => iter,
            Err(e) => { return Err(e); },
        };
        proof {
            if task_sound(*task) {
                assert(task.tables()[j as int].sound());
                crate::key::lemma_seeked_from_key(table.entries(), key@, iter.remaining());
            }
        }
        iters.push(Box::new(iter));
        j += 1;
    }
    Ok(iters)
}

/// Those of the first `upto` tables whose ids are not among `gone`.
pub open spec fn kept(tables: Seq<Arc<SsTable>>, gone: Set<u64>, upto: int) -> Seq<Arc<SsTable>>
    decreases upto,
{
    if upto <= 0 {
        Seq::empty()
    } else {
        let before = kept(tables, gone, upto - 1);
        if gone.contains(tables[upto - 1].id()) {
            before
        } else {
            before.push(tables[upto - 1])
        }
    }
}

/// What is kept of tables are those of them whose ids are not gone, in
/// their order.
pub proof fn lemma_kept(tables: Seq<Arc<SsTable>>, gone: Set<u64>, upto: int)
    requires
        0 <= upto <= tables.len(),
    ensures
        forall|x: Arc<SsTable>| #[trigger]
            kept(tables, gone, upto).contains(x) <==> (exists|i: int|
                0 <= i < upto && tables[i] == x) && !gone.contains(x.id()),
        ids_distinct(tables) ==> ids_distinct(kept(tables, gone, upto)),
        forall|i: int|
            0 <= i < kept(tables, gone, upto).len() ==> tables.take(upto).contains(
                #[trigger] kept(tables, gone, upto)[i],
            ),
    decreases upto,
{
    if upto > 0 {
        lemma_kept(tables, gone, upto - 1);
        let before = kept(tables, gone, upto - 1);
        let now = kept(tables, gone, upto);
        let last = tables[upto - 1];
        assert forall|x: Arc<SsTable>| #[trigger]
            now.contains(x) <==> (exists|i: int| 0 <= i < upto && tables[i] == x)
                && !gone.contains(x.id()) by {
            if now.contains(x) {
                let k = choose|k: int| 0 <= k < now.len() && now[k] == x;
                if k < before.len() {
                    assert(before[k] == x);
                    assert(before.contains(x));
                } else {
                    assert(x == last);
                }
            }
            if (exists|i: int| 0 <= i < upto && tables[i] == x) && !gone.contains(x.id()) {
                let i = choose|i: int| 0 <= i < upto && tables[i] == x;
                if i < upto - 1 {
                    assert(before.contains(x));
                    let k = choose|k: int| 0 <= k < before.len() && before[k] == x;
                    assert(now[k] == x);
                } else {
                    assert(now[now.len() - 1] == x);
                }
            }
        }

        if ids_distinct(tables) {
            assert forall|a: int, b: int| 0 <= a < b < now.len() implies (#[trigger] now[a]).id()
                != (#[trigger] now[b]).id() by {
                if b < before.len() {
                    assert(now[a] == before[a] && now[b] == before[b]);
                } else {
                    assert(now[a] == before[a]);
                    let shorter = tables.take(upto - 1);
                    assert(shorter.contains(before[a]));
                    let i = choose|i: int|
                        0 <= i < shorter.len() && #[trigger] shorter[i] == before[a];
                    assert(tables[i].id() != tables[upto - 1].id());
                }
            }
        }
    } else {
        assert(kept(tables, gone, upto).len() == 0);
    }
    let before = kept(tables, gone, upto - 1);
    let now = kept(tables, gone, upto);
    assert forall|i: int| 0 <= i < now.len() implies tables.take(upto).contains(
        #[trigger] now[i],
    ) by {
        if i < before.len() {
            assert(now[i] == before[i]);
            let shorter = tables.take(upto - 1);
            assert(shorter.contains(before[i]));
            let j = choose|j: int| 0 <= j < shorter.len() && #[trigger] shorter[j] == before[i];
            assert(tables.take(upto)[j] == now[i]);
        } else {
            assert(tables.take(upto)[upto - 1] == now[i]);
        }
    }
}

/// The tables whose ids are not among `gone`, in their order.
pub fn remove_tables(tables: &Vec<Arc<SsTable>>, gone: &HashSet<u64>) -> (out: Vec<Arc<SsTable>>)
    ensures
        out@ == kept(tables@, gone@, tables@.len() as int),
{
    let mut out: Vec<Arc<SsTable>> = Vec::new();
    let mut i: usize = 0;
    while i < tables.len()
        invariant
            i <= tables@.len(),
            out@ == kept(tables@, gone@, i as int),
        decreases tables@.len() - i,
    {
        if !gone.contains(&tables[i].id()) {
            out.push(share(&tables[i]));
        }
        i += 1;
    }
    out
}

/// The changes that install the result of a compaction: the new tables are
/// created at the level that takes them, then the tables of the task are
/// deleted.
pub open spec fn change_list(task: Task, created: Seq<Arc<SsTable>>) -> Seq<Change> {
    Seq::new(
        created.len() + task.tables().len(),
        |k: int|
            if k < created.len() {
                Change::created(created[k].id(), task.next_level_id)
            } else {
                Change::deleted(task.tables()[k - created.len()].id())
            },
    )
}

/// The changes that install the result of a compaction.
pub fn build_change_set(task: &Task, new_tables: &Vec<Arc<SsTable>>) -> (set: ManifestChangeSet)
    ensures
        set.changes@ == change_list(*task, new_tables@),
{
    let mut changes: Vec<Change> = Vec::new();
    let ghost list = change_list(*task, new_tables@);
    let mut i: usize = 0;
    while i < new_tables.len()
        invariant
            i <= new_tables@.len(),
            list == change_list(*task, new_tables@),
            changes@ == list.take(i as int),
        decreases new_tables@.len() - i,
    {
        changes.push(Change::create(new_tables[i].id(), task.next_level_id));
        assert(changes@ =~= list.take(i + 1));
        i += 1;
    }
    let ghost base = new_tables@.len() as int;
    let mut i: usize = 0;
    while i < task.this_tables.len()
        invariant
            i <= task.this_tables@.len(),
            base == new_tables@.len(),
            list == change_list(*task, new_tables@),
            changes@ == list.take(base + i),
        decreases task.this_tables@.len() - i,
    {
        changes.push(Change::delete(task.this_tables[i].id()));
        assert(task.tables()[i as int] == task.this_tables@[i as int]);
        assert(changes@ =~= list.take(base + i + 1));
        i += 1;
    }
    let ghost base = new_tables@.len() + task.this_tables@.len();
    let mut i: usize = 0;
    while i < task.next_tables.len()
        invariant
            i <= task.next_tables@.len(),
            base == new_tables@.len() + task.this_tables@.len(),
            list == change_list(*task, new_tables@),
            changes@ == list.take(base + i),
        decreases task.next_tables@.len() - i,
    {
        changes.push(Change::delete(task.next_tables[i].id()));
        assert(task.tables()[task.this_tables@.len() + i] == task.next_tables@[i as int]);
        assert(changes@ =~= list.take(base + i + 1));
        i += 1;
    }
    assert(list.take(list.len() as int) =~= list);
    ManifestChangeSet { changes }
}

/// The live tables after the first `upto` changes of an installation: those
/// that were live and are not yet deleted, with those that are created.
pub open spec fn live_after(
    live: Map<u64, usize>,
    task: Task,
    created: Seq<Arc<SsTable>>,
    upto: int,
) -> Map<u64, usize> {
    Map::new(
        |id: u64|
            (live.contains_key(id) && !(exists|k: int|
                0 <= k < task.tables().len() && created.len() + k < upto && (
                #[trigger] task.tables()[k]).id() == id)) || (exists|k: int|
                0 <= k < created.len() && k < upto && (#[trigger] created[k]).id() == id),
        |id: u64|
            if live.contains_key(id) {
                live[id]
            } else {
                task.next_level_id
            },
    )
}

/// The changes of an installation apply one after the other: the new
/// tables are not live and have distinct ids, and the tables of the task
/// are live and have distinct ids.
pub proof fn lemma_changes_apply(
    live: Map<u64, usize>,
    task: Task,
    created: Seq<Arc<SsTable>>,
    from: int,
)
    requires
        0 <= from <= created.len() + task.tables().len(),
        task.next_level_id <= 0xFF,
        ids_distinct(created),
        ids_distinct(task.tables()),
        forall|k: int| 0 <= k < created.len() ==> !live.contains_key((#[trigger] created[k]).id()),
        forall|k: int|
            0 <= k < task.tables().len() ==> live.contains_key((#[trigger] task.tables()[k]).id()),
    ensures
        applied_all(change_list(task, created), from, live_after(live, task, created, from))
            == Ok::<Map<u64, usize>, LsmError>(
            live_after(live, task, created, (created.len() + task.tables().len()) as int),
        ),
    decreases created.len() + task.tables().len() - from,
{
    let changes = change_list(task, created);
    let n = created.len() as int;
    if from < changes.len() {
        let cur = live_after(live, task, created, from);
        let next = live_after(live, task, created, from + 1);
        let change = changes[from];
        if from < n {
            let id = created[from].id();
            Change::lemma_made(id, task.next_level_id);
            assert(!cur.contains_key(id)) by {
                if exists|k: int| 0 <= k < n && k < from && (#[trigger] created[k]).id() == id {
                    let k = choose|k: int| 0 <= k < n && k < from && (#[trigger] created[k]).id() == id;
                    assert(created[k].id() != created[from].id());
                }
            }
            assert(cur.insert(id, task.next_level_id) =~= next) by {
                assert forall|x: u64| cur.insert(id, task.next_level_id).contains_key(x)
                    <==> next.contains_key(x) by {
                    if x == id {
                        assert(created[from].id() == x);
                    }
                    if exists|k: int| 0 <= k < n && k < from + 1 && (#[trigger] created[k]).id() == x {
                        let k = choose|k: int|
                            0 <= k < n && k < from + 1 && (#[trigger] created[k]).id() == x;
                        if k < from {
                            assert(created[k].id() == x);
                        }
                    }
                }
            }
        } else {
            let id = task.tables()[from - n].id();
            Change::lemma_made(id, 0);
            assert(cur.contains_key(id)) by {
                if exists|k: int|
                    0 <= k < task.tables().len() && n + k < from && (#[trigger] task.tables()[k]).id()
                        == id {
                    let k = choose|k: int|
                        0 <= k < task.tables().len() && n + k < from && (
                        #[trigger] task.tables()[k]).id() == id;
                    assert(task.tables()[k].id() != task.tables()[from - n].id());
                }
            }
            assert(cur.remove(id) =~= next) by {
                assert forall|x: u64| cur.remove(id).contains_key(x) <==> next.contains_key(
                    x,
                ) by {
                    if x == id {
                        assert(task.tables()[from - n].id() == x);
                        assert(!(exists|k: int|
                            0 <= k < n && k < from + 1 && (#[trigger] created[k]).id() == x)) by {
                            if exists|k: int| 0 <= k < n && (#[trigger] created[k]).id() == x {
                                let k = choose|k: int|
                                    0 <= k < n && (#[trigger] created[k]).id() == x;
                                assert(!live.contains_key(created[k].id()));
                            }
                        }
                    } else {
                        if exists|k: int|
                            0 <= k < task.tables().len() && n + k < from + 1 && (
                            #[trigger] task.tables()[k]).id() == x {
                            let k = choose|k: int|
                                0 <= k < task.tables().len() && n + k < from + 1 && (
                                #[trigger] task.tables()[k]).id() == x;
                            assert(n + k < from);
                        }
                    }
                }
            }
        }
        lemma_changes_apply(live, task, created, from + 1);
    }
}

/// The sub-ranges of a compaction of the task in `parts` parts, with the
/// first and the last of the keys at which the compaction can be split;
/// nothing where there are no two such keys.
///
/// The span of those keys is split into sub-ranges of about equal size, or
/// taken as one sub-range where the sizes are not known.
pub fn sub_ranges(task: &Task, parts: usize) -> (r: Option<
    (Vec<range::KeyRange>, Vec<u8>, Vec<u8>),
>)
    requires
        task.wf(),
    ensures
        r is None <==> range::one_boundary(*task),
        r matches Some(plan) ==> {
            &&& range::spans(plan.0@, plan.1@, plan.2@)
            &&& range::is_boundary(*task, plan.1@)
            &&& range::is_boundary(*task, plan.2@)
            &&& key_lt(plan.1@, plan.2@)
            &&& forall|key: Seq<u8>| #[trigger]
                range::is_boundary(*task, key) ==> key_le(plan.1@, key) && key_le(key, plan.2@)
        },
{
    let rws = RwsSlice::create(task);
    let num = if parts == 0 {
        1
    } else {
        parts
    };
    let mean = rws.total_size / num;
    let mut ranges = rws.split(mean);
    if rws.ranges.len() == 0 {
        return None;
    }
    let last = rws.ranges.len() - 1;
    let lower = crate::key::copy_bytes(rws.ranges[0].smallest_key.as_slice());
    let upper = crate::key::copy_bytes(rws.ranges[last].biggest_key.as_slice());
    proof {
        assert(range::ascending(rws.ranges@));
        assert(rws.ranges@.last() == rws.ranges@[last as int]);
        let pairs = range::pairs_of(rws.ranges@);
        assert(range::pairs_ascending(pairs));
        assert(range::linked(pairs)) by {
            assert forall|i: int, j: int| 0 <= i && j == i + 1 && j < pairs.len() implies (
            #[trigger] pairs[i]).1 == (#[trigger] pairs[j]).0 by {
                assert(rws.ranges@[i].biggest_key@ == rws.ranges@[j].smallest_key@);
            }
        }
        range::lemma_linked_start(pairs, last as int);
    }
    if ranges.len() == 0 {
        ranges.push(
            (
                Bound::Included(crate::key::copy_bytes(lower.as_slice())),
                Bound::Included(crate::key::copy_bytes(upper.as_slice())),
            ),
        );
        proof {
            range::lemma_whole_spans(rws.ranges@, ranges@);
        }
    } else {
        proof {
            range::lemma_split_spans(rws.ranges@, rws.total_size, mean, ranges@);
        }
    }
    proof {
        assert forall|key: Seq<u8>| #[trigger] range::is_boundary(*task, key) implies key_le(
            lower@,
            key,
        ) && key_le(key, upper@) by {
            range::lemma_boundary_span(*task, rws.ranges@, key);
        }
    }
    Some((ranges, lower, upper))
}

/// What a compaction has done: the task with the tables that it has
/// replaced, and the tables that it has made.
pub struct Compacted {
    /// The task.
    pub task: Task,
    /// The new tables, in the order of their first keys.
    pub created: Vec<Arc<SsTable>>,
    /// The first of the keys at which the compaction could be split.
    pub lower: Vec<u8>,
    /// The last of the keys at which the compaction could be split.
    pub upper: Vec<u8>,
}

/// The compactions were installed one after the other: `steps` are the
/// levels before the first, between them, and after the last, and each has
/// put its new tables in the place of the tables of its task, see
/// `replaced`.
pub open spec fn installed_all(
    before: Seq<Seq<Arc<SsTable>>>,
    after: Seq<Seq<Arc<SsTable>>>,
    done: Seq<Compacted>,
    steps: Seq<Seq<Seq<Arc<SsTable>>>>,
) -> bool {
    &&& steps.len() == done.len() + 1
    &&& steps[0] == before
    &&& steps.last() == after
    &&& forall|k: int|
        0 <= k < done.len() ==> replaced(
            steps[k],
            steps[k + 1],
            (#[trigger] done[k]).task,
            done[k].created@,
        )
}

/// What holds of every compaction that was done: it went from a level to
/// the next, and its new tables are sound and hold what `compacted` gives
/// between the first and the last of the keys at which it could be split,
/// where the tables of its task are sound.
pub open spec fn well_done(done: Compacted) -> bool {
    &&& done.task.next_level_id == done.task.this_level_id + 1
    &&& range::is_boundary(done.task, done.lower@)
    &&& range::is_boundary(done.task, done.upper@)
    &&& task_sound(done.task) ==> flat_tables(done.created@, done.created@.len() as int)
        == compacted(done.task, done.lower@, Bound::Included(done.upper@)) && forall|k: int|
        0 <= k < done.created@.len() ==> (#[trigger] done.created@[k]).sound()
}

/// The reservations without those of a task.
pub open spec fn released_from(reserved: Seq<Set<u64>>, task: Task) -> Seq<Set<u64>> {
    reserved.update(
        task.this_level_id as int,
        reserved[task.this_level_id as int].difference(ids_of(task.this_tables@)),
    ).update(
        task.next_level_id as int,
        reserved.update(
            task.this_level_id as int,
            reserved[task.this_level_id as int].difference(ids_of(task.this_tables@)),
        )[task.next_level_id as int].difference(ids_of(task.next_tables@)),
    )
}

/// Takes the ids of the tables out of the set.
fn remove_ids(set: &mut HashSet<u64>, tables: &Vec<Arc<SsTable>>)
    ensures
        final(set)@ == old(set)@.difference(ids_of(tables@)),
{
    let mut i: usize = 0;
    assert(set@ =~= old(set)@.difference(ids_of(tables@.take(0))));
    while i < tables.len()
        invariant
            i <= tables@.len(),
            set@ == old(set)@.difference(ids_of(tables@.take(i as int))),
        decreases tables@.len() - i,
    {
        let id = tables[i].id();
        set.remove(&id);
        proof {
            let grown = tables@.take(i + 1);
            let before = tables@.take(i as int);
            assert forall|id: u64| ids_of(grown).contains(id) <==> ids_of(before).contains(id) || id
                == tables@[i as int].id() by {
                if ids_of(grown).contains(id) {
                    let k = choose|k: int| 0 <= k < grown.len() && (#[trigger] grown[k]).id() == id;
                    if k < i {
                        assert(before[k].id() == id);
                    }
                }
                if ids_of(before).contains(id) {
                    let k = choose|k: int|
                        0 <= k < before.len() && (#[trigger] before[k]).id() == id;
                    assert(grown[k].id() == id);
                }
                if id == tables@[i as int].id() {
                    assert(grown[i as int].id() == id);
                }
            }
            assert(set@ =~= old(set)@.difference(ids_of(grown)));
        }
        i += 1;
    }
    assert(tables@.take(tables@.len() as int) =~= tables@);
}

/// The ids of tables that stand one behind the other are the ids of the
/// first and those of the second.
pub proof fn lemma_ids_of_concat(a: Seq<Arc<SsTable>>, b: Seq<Arc<SsTable>>)
    ensures
        ids_of(a + b) == ids_of(a).union(ids_of(b)),
{
    let c = a + b;
    assert forall|id: u64| ids_of(c).contains(id) <==> ids_of(a).contains(id) || ids_of(
        b,
    ).contains(id) by {
        if ids_of(c).contains(id) {
            let k = choose|k: int| 0 <= k < c.len() && (#[trigger] c[k]).id() == id;
            if k < a.len() {
                assert(a[k].id() == id);
            } else {
                assert(b[k - a.len()].id() == id);
            }
        }
        if ids_of(a).contains(id) {
            let k = choose|k: int| 0 <= k < a.len() && (#[trigger] a[k]).id() == id;
            assert(c[k].id() == id);
        }
        if ids_of(b).contains(id) {
            let k = choose|k: int| 0 <= k < b.len() && (#[trigger] b[k]).id() == id;
            assert(c[a.len() + k].id() == id);
        }
    }
    assert(ids_of(c) =~= ids_of(a).union(ids_of(b)));
}

/// The levels `after` are the levels `before` with the result of a
/// compaction in the place of the tables that went into it: the level that
/// was compacted has lost the tables of the task, the next level has lost
/// those of the task and holds the new tables, in the order of their first
/// keys, and the other levels are as they were.
pub open spec fn replaced(
    before: Seq<Seq<Arc<SsTable>>>,
    after: Seq<Seq<Arc<SsTable>>>,
    task: Task,
    created: Seq<Arc<SsTable>>,
) -> bool {
    let this = task.this_level_id as int;
    let next = task.next_level_id as int;
    let gone = ids_of(task.tables());
    &&& after.len() == before.len()
    &&& after[this] == kept(before[this], gone, before[this].len() as int)
    &&& in_order(after[next], TableOrder::BySmallestKey)
    &&& after[next].to_multiset() == (kept(before[next], gone, before[next].len() as int)
        + created).to_multiset()
    &&& forall|l: int|
        0 <= l < before.len() && l != this && l != next ==> (#[trigger] after[l]) == before[l]
}

/// Those of the tables of the next level that overlap a chosen table are
/// tables of the next level, in their order.
pub proof fn lemma_family(next: Seq<Arc<SsTable>>, chosen: Seq<Arc<SsTable>>, upto: int)
    requires
        0 <= upto <= next.len(),
    ensures
        forall|i: int|
            0 <= i < family(next, chosen, upto).len() ==> in_family(
                *#[trigger] family(next, chosen, upto)[i],
                chosen,
            ),
        forall|i: int|
            0 <= i < family(next, chosen, upto).len() ==> next.take(upto).contains(
                #[trigger] family(next, chosen, upto)[i],
            ),
        ids_distinct(next) ==> ids_distinct(family(next, chosen, upto)),
    decreases upto,
{
    if upto > 0 {
        lemma_family(next, chosen, upto - 1);
        let before = family(next, chosen, upto - 1);
        let now = family(next, chosen, upto);
        assert forall|i: int| 0 <= i < now.len() implies in_family(*#[trigger] now[i], chosen) by {
            if i < before.len() {
                assert(now[i] == before[i]);
            }
        }
        assert forall|i: int| 0 <= i < now.len() implies next.take(upto).contains(
            #[trigger] now[i],
        ) by {
            if i < before.len() {
                assert(now[i] == before[i]);
                let shorter = next.take(upto - 1);
                assert(shorter.contains(before[i]));
                let j = choose|j: int| 0 <= j < shorter.len() && #[trigger] shorter[j] == before[i];
                assert(next.take(upto)[j] == now[i]);
            } else {
                assert(next.take(upto)[upto - 1] == now[i]);
            }
        }
        if ids_distinct(next) {
            assert forall|a: int, b: int| 0 <= a < b < now.len() implies (#[trigger] now[a]).id()
                != (#[trigger] now[b]).id() by {
                if b < before.len() {
                    assert(now[a] == before[a] && now[b] == before[b]);
                } else {
                    assert(now[a] == before[a]);
                    let shorter = next.take(upto - 1);
                    assert(shorter.contains(before[a]));
                    let j = choose|j: int|
                        0 <= j < shorter.len() && #[trigger] shorter[j] == before[a];
                    assert(next[j].id() != next[upto - 1].id());
                }
            }
        }
    }
}

/// The tables of a task that was chosen among well-formed levels are well
/// formed, live and of distinct ids.
pub proof fn lemma_task_tables(inner: &LevelsControllerInner, task: Task)
    requires
        inner.wf(),
        task.next_level_id == task.this_level_id + 1,
        task.next_level_id < inner.levels().len(),
        forall|x: Arc<SsTable>| #[trigger]
            task.this_tables@.contains(x) ==> inner.levels()[task.this_level_id as int].contains(x),
        ids_distinct(task.this_tables@),
        task.next_tables@ == family(
            inner.levels()[task.next_level_id as int],
            task.this_tables@,
            inner.levels()[task.next_level_id as int].len() as int,
        ),
    ensures
        task.wf(),
        ids_distinct(task.tables()),
        forall|k: int|
            0 <= k < task.tables().len() ==> inner.manifest().live().contains_key(
                (#[trigger] task.tables()[k]).id(),
            ),
        forall|k: int|
            0 <= k < task.this_tables@.len() ==> inner.manifest().live()[(
            #[trigger] task.this_tables@[k]).id()] == task.this_level_id,
        forall|k: int|
            0 <= k < task.next_tables@.len() ==> inner.manifest().live()[(
            #[trigger] task.next_tables@[k]).id()] == task.next_level_id,
{
    let this = task.this_level_id as int;
    let next = task.next_level_id as int;
    let live = inner.manifest().live();
    let next_level = inner.levels()[next];
    assert(ids_distinct(next_level)) by {
        assert forall|i: int, j: int| 0 <= i < j < next_level.len() implies (
        #[trigger] next_level[i]).id() != (#[trigger] next_level[j]).id() by {
            assert(inner.levels()[next][i].id() != inner.levels()[next][j].id());
        }
    }
    lemma_family(next_level, task.this_tables@, next_level.len() as int);
    assert forall|k: int| 0 <= k < task.this_tables@.len() implies (
    #[trigger] task.this_tables@[k]).wf() && live.contains_key(task.this_tables@[k].id())
        && live[task.this_tables@[k].id()] == this by {
        let x = task.this_tables@[k];
        assert(task.this_tables@.contains(x));
        let i = choose|i: int| 0 <= i < inner.levels()[this].len() && inner.levels()[this][i] == x;
        assert(inner.levels()[this][i].wf());
    }
    assert forall|k: int| 0 <= k < task.next_tables@.len() implies (
    #[trigger] task.next_tables@[k]).wf() && live.contains_key(task.next_tables@[k].id())
        && live[task.next_tables@[k].id()] == next by {
        let whole = next_level.take(next_level.len() as int);
        assert(whole.contains(task.next_tables@[k]));
        let j = choose|j: int| 0 <= j < whole.len() && whole[j] == task.next_tables@[k];
        assert(inner.levels()[next][j].wf());
    }
    assert forall|k: int| 0 <= k < task.tables().len() implies (#[trigger] task.tables()[k]).wf()
        && live.contains_key(task.tables()[k].id()) by {
        if k < task.this_tables@.len() {
            assert(task.tables()[k] == task.this_tables@[k]);
        } else {
            assert(task.tables()[k] == task.next_tables@[k - task.this_tables@.len()]);
        }
    }
    assert forall|a: int, b: int| 0 <= a < b < task.tables().len() implies (
    #[trigger] task.tables()[a]).id() != (#[trigger] task.tables()[b]).id() by {
        let n = task.this_tables@.len() as int;
        if b < n {
            assert(task.tables()[a] == task.this_tables@[a] && task.tables()[b]
                == task.this_tables@[b]);
        } else if a >= n {
            assert(task.tables()[a] == task.next_tables@[a - n] && task.tables()[b]
                == task.next_tables@[b - n]);
        } else {
            assert(task.tables()[a] == task.this_tables@[a] && task.tables()[b]
                == task.next_tables@[b - n]);
        }
    }
}

/// Giving up the reservations of a task that was chosen leaves the
/// reservations as they were before it was chosen.
pub proof fn lemma_release_restores(reserved: Seq<Set<u64>>, task: Task, next: Seq<Arc<SsTable>>)
    requires
        task.next_level_id == task.this_level_id + 1,
        task.next_level_id < reserved.len(),
        forall|x: Arc<SsTable>| #[trigger]
            task.this_tables@.contains(x) ==> eligible(
                *x,
                reserved[task.this_level_id as int],
                next,
                reserved[task.next_level_id as int],
            ),
        task.next_tables@ == family(next, task.this_tables@, next.len() as int),
    ensures
        released_from(reserved_for(reserved, task), task) == reserved,
{
    let this = task.this_level_id as int;
    let nxt = task.next_level_id as int;
    lemma_family(next, task.this_tables@, next.len() as int);
    assert forall|id: u64| ids_of(task.this_tables@).contains(id) implies !reserved[this].contains(
        id,
    ) by {
        let k = choose|k: int|
            0 <= k < task.this_tables@.len() && (#[trigger] task.this_tables@[k]).id() == id;
        assert(task.this_tables@.contains(task.this_tables@[k]));
    }
    assert forall|id: u64| ids_of(task.next_tables@).contains(id) implies !reserved[nxt].contains(
        id,
    ) by {
        let k = choose|k: int|
            0 <= k < task.next_tables@.len() && (#[trigger] task.next_tables@[k]).id() == id;
        let whole = next.take(next.len() as int);
        assert(whole.contains(task.next_tables@[k]));
        let j = choose|j: int| 0 <= j < whole.len() && whole[j] == task.next_tables@[k];
        assert(in_family(*task.next_tables@[k], task.this_tables@));
        let c = choose|c: int|
            0 <= c < task.this_tables@.len() && overlapping(*next[j], *#[trigger] task.this_tables@[c]);
        assert(task.this_tables@.contains(task.this_tables@[c]));
        assert(!blocked(*task.this_tables@[c], next, reserved[nxt]));
    }
    let after = released_from(reserved_for(reserved, task), task);
    assert(after.len() == reserved.len());
    assert forall|l: int| 0 <= l < reserved.len() implies after[l] =~= reserved[l] by {}
    assert(after =~= reserved);
}

/// The level that takes the result of a compaction is sorted and its
/// tables are disjoint afterwards, where the tables that stay in it and
/// the new tables have no key in common.
pub proof fn lemma_replaced_sorted(
    before: Seq<Seq<Arc<SsTable>>>,
    after: Seq<Seq<Arc<SsTable>>>,
    task: Task,
    created: Seq<Arc<SsTable>>,
)
    requires
        replaced(before, after, task, created),
        0 <= task.next_level_id < before.len(),
        order::pairwise_disjoint(
            kept(
                before[task.next_level_id as int],
                ids_of(task.tables()),
                before[task.next_level_id as int].len() as int,
            ) + created,
        ),
        ids_distinct(
            kept(
                before[task.next_level_id as int],
                ids_of(task.tables()),
                before[task.next_level_id as int].len() as int,
            ) + created,
        ),
        forall|i: int|
            0 <= i < after[task.next_level_id as int].len() ==> key_le(
                (#[trigger] after[task.next_level_id as int][i]).smallest(),
                after[task.next_level_id as int][i].biggest(),
            ),
    ensures
        order::level_sorted(after[task.next_level_id as int]),
        order::pairwise_disjoint(after[task.next_level_id as int]),
{
    let next = task.next_level_id as int;
    let both = kept(before[next], ids_of(task.tables()), before[next].len() as int) + created;
    order::lemma_disjoint_rearranged(both, after[next]);
    order::lemma_level_sorted(after[next]);
}

/// Where every live table stood in the levels, every table that is live
/// after a compaction stands in the levels in which the result of the
/// compaction has taken the place of the tables that went into it.
pub proof fn lemma_installed_placed(
    before: Seq<Seq<Arc<SsTable>>>,
    after: Seq<Seq<Arc<SsTable>>>,
    old_live: Map<u64, usize>,
    live: Map<u64, usize>,
    task: Task,
    created: Seq<Arc<SsTable>>,
)
    requires
        every_live_placed(before, old_live),
        replaced(before, after, task, created),
        task.next_level_id == task.this_level_id + 1,
        task.next_level_id < before.len(),
        live == live_after(old_live, task, created, (created.len() + task.tables().len()) as int),
    ensures
        every_live_placed(after, live),
{
    let this = task.this_level_id as int;
    let next = task.next_level_id as int;
    let gone = ids_of(task.tables());
    lemma_kept(before[this], gone, before[this].len() as int);
    lemma_kept(before[next], gone, before[next].len() as int);
    let stay = kept(before[next], gone, before[next].len() as int);
    lemma_same_elements(stay + created, after[next]);
    assert forall|id: u64| #[trigger] live.contains_key(id) implies exists|l: int, i: int|
        0 <= l < after.len() && 0 <= i < after[l].len() && (#[trigger] after[l][i]).id() == id by {
        if exists|k: int| 0 <= k < created.len() && (#[trigger] created[k]).id() == id {
            let k = choose|k: int| 0 <= k < created.len() && (#[trigger] created[k]).id() == id;
            let x = created[k];
            assert((stay + created)[stay.len() + k] == x);
            assert((stay + created).contains(x));
            assert(after[next].contains(x));
            let i = choose|i: int| 0 <= i < after[next].len() && after[next][i] == x;
            assert(after[next][i].id() == id);
        } else {
            assert(old_live.contains_key(id));
            assert(!gone.contains(id));
            let (l, i) = choose|l: int, i: int|
                0 <= l < before.len() && 0 <= i < before[l].len() && (#[trigger] before[l][i]).id()
                    == id;
            let x = before[l][i];
            if l == this {
                assert(after[this].contains(x));
                let j = choose|j: int| 0 <= j < after[this].len() && after[this][j] == x;
                assert(after[this][j].id() == id);
            } else if l == next {
                assert(stay.contains(x));
                let k = choose|k: int| 0 <= k < stay.len() && stay[k] == x;
                assert((stay + created)[k] == x);
                assert((stay + created).contains(x));
                assert(after[next].contains(x));
                let j = choose|j: int| 0 <= j < after[next].len() && after[next][j] == x;
                assert(after[next][j].id() == id);
            } else {
                assert(after[l][i].id() == id);
            }
        }
    }
}

/// Levels in which the result of a compaction has taken the place of the
/// tables that went into it are well formed with the MANIFEST that has the
/// changes of the compaction.
#[verifier::spinoff_prover]
#[verifier::rlimit(100)]
pub proof fn lemma_installed_wf(
    start: &LevelsControllerInner,
    middle: &LevelsControllerInner,
    end: &LevelsControllerInner,
    task: Task,
    created: Seq<Arc<SsTable>>,
)
    requires
        start.wf(),
        task.next_level_id == task.this_level_id + 1,
        task.next_level_id < start.levels().len(),
        task.wf(),
        ids_distinct(task.tables()),
        ids_distinct(created),
        forall|k: int|
            0 <= k < task.tables().len() ==> start.manifest().live().contains_key(
                (#[trigger] task.tables()[k]).id(),
            ),
        forall|k: int|
            0 <= k < task.this_tables@.len() ==> start.manifest().live()[(
            #[trigger] task.this_tables@[k]).id()] == task.this_level_id,
        forall|k: int|
            0 <= k < task.next_tables@.len() ==> start.manifest().live()[(
            #[trigger] task.next_tables@[k]).id()] == task.next_level_id,
        forall|k: int|
            0 <= k < created.len() ==> (#[trigger] created[k]).wf() && start.next_id()
                <= created[k].id() < middle.next_id(),
        middle.levels() == start.levels(),
        middle.options() == start.options(),
        middle.reserved().len() == MAX_LEVEL,
        start.next_id() <= middle.next_id(),
        middle.manifest().wf(),
        middle.manifest().live() == live_after(
            start.manifest().live(),
            task,
            created,
            (created.len() + task.tables().len()) as int,
        ),
        end.manifest() == middle.manifest(),
        end.next_id() == middle.next_id(),
        end.options() == middle.options(),
        end.reserved() == middle.reserved(),
        replaced(middle.levels(), end.levels(), task, created),
    ensures
        end.wf(),
{
    let this = task.this_level_id as int;
    let next = task.next_level_id as int;
    let gone = ids_of(task.tables());
    let old_live = start.manifest().live();
    let live = end.manifest().live();
    let before = start.levels();
    let after = end.levels();
    lemma_kept(before[this], gone, before[this].len() as int);
    lemma_kept(before[next], gone, before[next].len() as int);
    let stay = kept(before[next], gone, before[next].len() as int);
    lemma_same_elements(stay + created, after[next]);
    assert forall|l: int| 0 <= l < before.len() implies ids_distinct(#[trigger] before[l]) by {
        assert forall|i: int, j: int| 0 <= i < j < before[l].len() implies (
        #[trigger] before[l][i]).id() != (#[trigger] before[l][j]).id() by {
            assert(start.levels()[l][i].id() != start.levels()[l][j].id());
        }
    }
    // A table that stays is live as it was; a new table is live at the next level.
    assert forall|x: Arc<SsTable>, l: int|
        0 <= l < before.len() && before[l].contains(x) && !gone.contains(x.id()) implies x.wf()
        && #[trigger] live.contains_key(x.id()) && live[x.id()] == l && x.id() < start.next_id()
        && #[trigger] before[l].contains(x) by {
        let i = choose|i: int| 0 <= i < before[l].len() && before[l][i] == x;
        assert(start.levels()[l][i].wf());
        assert(old_live.contains_key(x.id()));
        if exists|k: int| 0 <= k < task.tables().len() && (#[trigger] task.tables()[k]).id() == x.id() {
            let k = choose|k: int|
                0 <= k < task.tables().len() && (#[trigger] task.tables()[k]).id() == x.id();
            assert(gone.contains(x.id()));
        }
    }
    assert forall|k: int| 0 <= k < created.len() implies live.contains_key(
        (#[trigger] created[k]).id(),
    ) && live[created[k].id()] == next && !old_live.contains_key(created[k].id()) by {
        if old_live.contains_key(created[k].id()) {
            assert(created[k].id() < start.next_id());
        }
    }
    assert(ids_distinct(stay + created)) by {
        let both = stay + created;
        assert forall|a: int, b: int| 0 <= a < b < both.len() implies (#[trigger] both[a]).id() != (
        #[trigger] both[b]).id() by {
            if b < stay.len() {
                assert(both[a] == stay[a] && both[b] == stay[b]);
            } else if a >= stay.len() {
                assert(both[a] == created[a - stay.len()] && both[b] == created[b - stay.len()]);
            } else {
                assert(both[a] == stay[a] && both[b] == created[b - stay.len()]);
                assert(stay.contains(stay[a]));
                assert(before[next].contains(stay[a]));
            }
        }
    }
    lemma_distinct_rearranged(stay + created, after[next]);
    assert forall|l: int, i: int| 0 <= l < after.len() && 0 <= i < after[l].len() implies {
        let table = #[trigger] after[l][i];
        &&& table.wf()
        &&& live.contains_key(table.id())
        &&& live[table.id()] == l
    } by {
        let x = after[l][i];
        assert(after[l].contains(x));
        if l == this {
            assert(before[this].contains(x) && !gone.contains(x.id()));
        } else if l == next {
            assert((stay + created).contains(x));
            let k = choose|k: int| 0 <= k < (stay + created).len() && (stay + created)[k] == x;
            if k < stay.len() {
                assert(stay.contains(stay[k]));
                assert(before[next].contains(x) && !gone.contains(x.id()));
            } else {
                assert(created[k - stay.len()] == x);
            }
        } else {
            assert(after[l] == before[l]);
            assert(before[l].contains(x));
            assert(!gone.contains(x.id())) by {
                if gone.contains(x.id()) {
                    let k = choose|k: int|
                        0 <= k < task.tables().len() && (#[trigger] task.tables()[k]).id()
                            == x.id();
                    let j = choose|j: int| 0 <= j < before[l].len() && before[l][j] == x;
                    assert(start.levels()[l][j].wf());
                    assert(old_live[x.id()] == l);
                    if k < task.this_tables@.len() {
                        assert(task.tables()[k] == task.this_tables@[k]);
                    } else {
                        assert(task.tables()[k] == task.next_tables@[k - task.this_tables@.len()]);
                    }
                }
            }
        }
    }
    assert forall|l: int, i: int, j: int|
        0 <= l < after.len() && 0 <= i < j < after[l].len() implies (#[trigger] after[l][i]).id()
        != (#[trigger] after[l][j]).id() by {
        if l == this {
        } else if l == next {
        } else {
            assert(after[l] == before[l]);
        }
    }
    lemma_installed_placed(before, after, old_live, live, task, created);
    assert(levels_in_order(after)) by {
        assert forall|l: int| 1 <= l < after.len() implies in_order(
            #[trigger] after[l],
            TableOrder::BySmallestKey,
        ) by {
            if l == this {
                assert(in_order(before[this], TableOrder::BySmallestKey));
                lemma_kept_in_order(before[this], gone, before[this].len() as int);
            } else if l != next {
                assert(after[l] == before[l]);
                assert(in_order(before[l], TableOrder::BySmallestKey));
            }
        }
    }
    assert forall|id: u64| #[trigger] live.contains_key(id) implies id < end.next_id() by {
        if old_live.contains_key(id) {
        } else {
            let k = choose|k: int| 0 <= k < created.len() && (#[trigger] created[k]).id() == id;
            assert(created[k].id() < middle.next_id());
        }
    }
}

/// The priorities with that of level 0 in front, where it is among them;
/// the others keep their order.
pub open spec fn l0_first(prios: Seq<TaskPriority>, pos: int) -> Seq<TaskPriority> {
    seq![prios[pos]] + prios.take(pos) + prios.skip(pos + 1)
}

/// Puts the priority of level 0 in front, where it is among the
/// priorities.
pub fn move_l0_to_front(prios: Vec<TaskPriority>) -> (out: Vec<TaskPriority>)
    ensures
        match first_l0(prios@, 0) {
            Some(pos) => out@ == l0_first(prios@, pos),
            None => out@ == prios@,
        },
        out@.len() == prios@.len(),
        forall|p: TaskPriority| out@.contains(p) <==> prios@.contains(p),
{
    let mut pos: usize = 0;
    while pos < prios.len() && prios[pos].level != 0
        invariant
            pos <= prios@.len(),
            first_l0(prios@, 0) == first_l0(prios@, pos as int),
        decreases prios@.len() - pos,
    {
        pos += 1;
    }
    if pos >= prios.len() {
        return prios;
    }
    let mut out: Vec<TaskPriority> = Vec::with_capacity(prios.len());
    out.push(prios[pos]);
    let mut i: usize = 0;
    assert(out@ =~= seq![prios@[pos as int]] + prios@.take(0) + Seq::empty());
    while i < prios.len()
        invariant
            i <= prios@.len(),
            pos < prios@.len(),
            out@ == seq![prios@[pos as int]] + prios@.take(
                if i <= pos {
                    i as int
                } else {
                    pos as int
                },
            ) + (if i > pos {
                prios@.subrange(pos + 1, i as int)
            } else {
                Seq::empty()
            }),
        decreases prios@.len() - i,
    {
        if i != pos {
            out.push(prios[i]);
        }
        proof {
            let next = seq![prios@[pos as int]] + prios@.take(
                if i + 1 <= pos {
                    i + 1
                } else {
                    pos as int
                },
            ) + (if i + 1 > pos {
                prios@.subrange(pos + 1, i + 1)
            } else {
                Seq::empty()
            });
            assert(out@ =~= next);
        }
        i += 1;
    }
    proof {
        let n = prios@.len() as int;
        assert(prios@.subrange(pos + 1, n) =~= prios@.skip(pos + 1));
        assert(out@ =~= l0_first(prios@, pos as int));
        assert forall|p: TaskPriority| out@.contains(p) <==> prios@.contains(p) by {
            if out@.contains(p) {
                let k = choose|k: int| 0 <= k < out@.len() && out@[k] == p;
                if k == 0 {
                    assert(prios@[pos as int] == p);
                } else if k <= pos {
                    assert(prios@[k - 1] == p);
                } else {
                    assert(prios@[k] == p);
                }
            }
            if prios@.contains(p) {
                let k = choose|k: int| 0 <= k < prios@.len() && prios@[k] == p;
                if k == pos {
                    assert(out@[0] == p);
                } else if k < pos {
                    assert(out@[k + 1] == p);
                } else {
                    assert(out@[k] == p);
                }
            }
        }
    }
    out
}

/// The place of the first priority of level 0 from place `from` on.
pub open spec fn first_l0(prios: Seq<TaskPriority>, from: int) -> Option<int>
    decreases prios.len() - from,
{
    if from < 0 || from >= prios.len() {
        None
    } else if prios[from].level == 0 {
        Some(from)
    } else {
        first_l0(prios, from + 1)
    }
}

/// The levels of tables of an engine.
pub struct LevelController {
    inner: LevelsControllerInner,
}

impl LevelController {
    /// The levels and what goes with them.
    pub closed spec fn inner(&self) -> LevelsControllerInner {
        self.inner
    }

    /// What holds of the levels at all times.
    pub open spec fn wf(&self) -> bool {
        self.inner().wf()
    }

    /// What holds of the levels of a database that was opened: the MANIFEST
    /// is its log with nothing pending, every live table stands at its
    /// level and holds the content of the file with its id, level 0 stands
    /// in the order in which the MANIFEST created its tables, nothing is
    /// reserved, and the next id is one above the largest live id.
    pub open spec fn opened(
        lvctl: Self,
        opt: LsmOptions,
        manifest: Seq<u8>,
        files: Seq<(u64, FileObject)>,
    ) -> bool {
        let inner = lvctl.inner();
        &&& lvctl.wf()
        &&& inner.options() == opt
        &&& inner.manifest().log() == manifest
        &&& inner.manifest().pending().len() == 0
        &&& forall|l: int|
            0 <= l < MAX_LEVEL ==> (#[trigger] inner.reserved()[l]) == Set::<u64>::empty()
        &&& is_next_id(inner.manifest().live(), inner.next_id())
        &&& levels_from_files(inner.levels(), files)
        &&& crate::manifest::replayed(manifest, 0, crate::manifest::nothing_replayed()) matches Ok(
            state,
        ) && state.live == inner.manifest().live() && order::in_order_of(
            inner.levels()[0],
            state.level0,
        )
    }

    /// The levels as the MANIFEST and the table files of a database give
    /// them; see `LevelsControllerInner::new`.
    pub fn open(opt: LsmOptions, manifest: &[u8], files: Vec<(u64, FileObject)>) -> (r: Result<
        Self,
        LsmError,
    >)
        ensures
            r matches Ok(lvctl) ==> {
                &&& lvctl.wf()
                &&& lvctl.inner().options() == opt
                &&& lvctl.inner().manifest().log() == manifest@
                &&& lvctl.inner().manifest().pending().len() == 0
                &&& every_live_placed(lvctl.inner().levels(), lvctl.inner().manifest().live())
                &&& forall|l: int|
                    1 <= l < lvctl.inner().levels().len() ==> in_order(
                        #[trigger] lvctl.inner().levels()[l],
                        TableOrder::BySmallestKey,
                    )
            },
            opt.num_levels < 2 || opt.num_levels > MAX_LEVEL ==> r == Err::<Self, LsmError>(
                LsmError::InvalidLevel,
            ),
            r is Ok <==> opens(opt, manifest@, files@),
            r matches Ok(lvctl) ==> Self::opened(lvctl, opt, manifest@, files@),
    {
        match LevelsControllerInner::new(opt, manifest, files) {
            Ok(inner) => Ok(Self { inner }),
            Err(e) => Err(e),
        }
    }

    /// The value that is shown for the key; see
    /// `LevelsControllerInner::get`.
    pub fn get(&self, key: &[u8]) -> (r: Result<Option<Vec<u8>>, LsmError>)
        requires
            self.wf(),
        ensures
            self.inner().all_sound() ==> r is Ok && view_of(r->Ok_0) == shown(
                stored_value(self.inner().levels(), key@),
            ),
    {
        self.inner.get(key)
    }

    /// One round of the compaction worker number `idx`; see
    /// `LevelsControllerInner::run_compactor`.
    pub fn run_compactor(&mut self, idx: usize) -> (done: Vec<Compacted>)
        requires
            old(self).wf(),
        ensures
            final(self).wf(),
            final(self).inner().options() == old(self).inner().options(),
            final(self).inner().next_id() >= old(self).inner().next_id(),
            done@.len() == 0 ==> final(self).inner().levels() == old(self).inner().levels(),
            forall|k: int| 0 <= k < done@.len() ==> well_done(#[trigger] done@[k]),
            forall|k: int|
                0 <= k < done@.len() ==> old(self).inner().full_level(
                    (#[trigger] done@[k]).task.this_level_id as int,
                ),
            old(self).inner().none_full() ==> done@.len() == 0,
            !old(self).inner().none_full() && old(self).inner().all_compactable() ==> done@.len()
                > 0,
            exists|steps: Seq<Seq<Seq<Arc<SsTable>>>>| #[trigger]
                installed_all(
                    old(self).inner().levels(),
                    final(self).inner().levels(),
                    done@,
                    steps,
                ),
    {
        self.inner.run_compactor(idx)
    }

    /// Takes a table of a flush into level 0; see
    /// `LevelsControllerInner::l0_push_sstable`.
    pub fn l0_push_sstable(&mut self, builder: SsTableBuilder) -> (r: Result<
        Arc<SsTable>,
        LsmError,
    >)
        requires
            old(self).wf(),
            builder.wf(),
            builder.entries().len() > 0,
        ensures
            final(self).wf(),
            builder.has_room() && old(self).inner().next_id() < u64::MAX ==> r is Ok,
            match push_error(old(self).inner().next_id(), builder) {
                Some(e) => r matches Err(x) && x == e,
                None => r is Ok,
            },
            final(self).inner().options() == old(self).inner().options(),
            match r {
                Ok(table) => {
                    &&& table.wf()
                    &&& table.id() == old(self).inner().next_id()
                    &&& table.entries() == builder.entries()
                    &&& crate::key::entries_sorted(builder.entries()) ==> table.sound()
                    &&& final(self).inner().levels() == old(self).inner().levels().update(
                        0,
                        old(self).inner().levels()[0].push(table),
                    )
                    &&& final(self).inner().manifest().live()
                        == old(self).inner().manifest().live().insert(table.id(), 0)
                },
                Err(e) => {
                    &&& final(self).inner().levels() == old(self).inner().levels()
                    &&& final(self).inner().manifest() == old(self).inner().manifest()
                    &&& e == LsmError::Overflow || e == LsmError::Compression || e
                        == LsmError::UnknownCodec
                },
            },
    {
        self.inner.l0_push_sstable(builder)
    }

    /// The tables that a scan from `lower` to `upper` reads; see
    /// `LevelsControllerInner::level_tables_sorted`.
    pub fn level_tables_sorted(&self, lower: Bound<&[u8]>, upper: Bound<&[u8]>) -> (res: Vec<
        Arc<SsTable>,
    >)
        requires
            self.wf(),
        ensures
            res@ == spanned_levels(
                self.inner().levels(),
                crate::mem_table::bound_view(lower),
                crate::mem_table::bound_view(upper),
                self.inner().levels().len() as int,
            ),
    {
        self.inner.level_tables_sorted(lower, upper)
    }

    /// Hands out the records of the MANIFEST that are to be written to its
    /// file.
    pub fn take_manifest_records(&mut self) -> (bytes: Vec<u8>)
        requires
            old(self).wf(),
        ensures
            final(self).wf(),
            bytes@ == old(self).inner().manifest().pending(),
            final(self).inner().levels() == old(self).inner().levels(),
            final(self).inner().options() == old(self).inner().options(),
            final(self).inner().manifest().live() == old(self).inner().manifest().live(),
    {
        self.inner.take_manifest_records()
    }
}

/// A value that may be missing, as a byte string that may be missing.
pub open spec fn view_of(value: Option<Vec<u8>>) -> Option<Seq<u8>> {
    match value {
        Some(v) => Some(v@),
        None => None,
    }
}

/// The tables of every level below level 0 stand in the order of their
/// first keys.
pub open spec fn levels_in_order(levels: Seq<Seq<Arc<SsTable>>>) -> bool {
    forall|l: int| 1 <= l < levels.len() ==> in_order(#[trigger] levels[l], TableOrder::BySmallestKey)
}

/// What is kept of tables that stand in the order of their first keys
/// stands in that order.
pub proof fn lemma_kept_in_order(tables: Seq<Arc<SsTable>>, gone: Set<u64>, upto: int)
    requires
        in_order(tables, TableOrder::BySmallestKey),
        0 <= upto <= tables.len(),
    ensures
        in_order(kept(tables, gone, upto), TableOrder::BySmallestKey),
    decreases upto,
{
    if upto > 0 {
        lemma_kept_in_order(tables, gone, upto - 1);
        lemma_kept(tables, gone, upto - 1);
        let before = kept(tables, gone, upto - 1);
        let now = kept(tables, gone, upto);
        assert forall|i: int, j: int| 0 <= i < j < now.len() implies order::precedes(
            *#[trigger] now[i],
            *#[trigger] now[j],
            TableOrder::BySmallestKey,
        ) by {
            if j < before.len() {
                assert(now[i] == before[i] && now[j] == before[j]);
            } else {
                assert(now[i] == before[i]);
                let front = tables.take(upto - 1);
                assert(front.contains(before[i]));
                let p = choose|p: int| 0 <= p < front.len() && front[p] == before[i];
                assert(tables[p] == before[i]);
                assert(now[j] == tables[upto - 1]);
                assert(order::precedes(*tables[p], *tables[upto - 1], TableOrder::BySmallestKey));
            }
        }
    }
}

/// Every table is well formed and is live at its level.
pub open spec fn tables_live(levels: Seq<Seq<Arc<SsTable>>>, live: Map<u64, usize>) -> bool {
    forall|l: int, i: int|
        0 <= l < levels.len() && 0 <= i < levels[l].len() ==> {
            let table = #[trigger] levels[l][i];
            &&& table.wf()
            &&& live.contains_key(table.id())
            &&& live[table.id()] == l
        }
}

/// No two tables of a level have one id.
pub open spec fn tables_distinct(levels: Seq<Seq<Arc<SsTable>>>) -> bool {
    forall|l: int, i: int, j: int|
        0 <= l < levels.len() && 0 <= i < j < levels[l].len() ==> (#[trigger] levels[l][i]).id()
            != (#[trigger] levels[l][j]).id()
}

} // verus!
