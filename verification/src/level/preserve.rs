//! What a compaction keeps of what the levels have stored.

use super::order::{level_sorted, lemma_same_elements};
use super::range::is_boundary;
use super::task::Task;
use super::{
    chosen, compacted, family, first_value, ids_of, kept, lemma_compacted_sorted,
    lemma_compaction_keeps_values, lemma_deeper_same, lemma_family, lemma_first_value_at,
    lemma_first_value_entries, lemma_first_value_none, lemma_flat_value, lemma_kept,
    lemma_level_lookup, lemma_task_entries_sorted, level_value, newest_first, replaced,
    stored_value, tables_distinct, tables_live, task_entries, task_sound, well_done, Compacted,
};
use crate::iterators::merge_iterator::{lemma_merged_value, merged};
use crate::key::{
    has_key, key_le, key_lt, lemma_key_le_lt, lemma_key_le_transitive, lemma_key_lt_irreflexive,
    lemma_key_lt_le, lemma_span_members, value_in,
};
use crate::table::SsTable;
use std::ops::Bound;
use std::sync::Arc;
use vstd::prelude::*;

verus! {

/// Every table of the levels is well formed and sound.
pub open spec fn levels_sound(levels: Seq<Seq<Arc<SsTable>>>) -> bool {
    forall|l: int, i: int|
        0 <= l < levels.len() && 0 <= i < levels[l].len() ==> (#[trigger] levels[l][i]).wf()
            && levels[l][i].sound()
}

/// Every table is well formed and intact.
pub open spec fn all_intact(tables: Seq<Arc<SsTable>>) -> bool {
    forall|i: int| 0 <= i < tables.len() ==> (#[trigger] tables[i]).wf() && tables[i].intact()
}

/// What tables behind other tables have for a key, from the first of them
/// on, is what they have for it alone.
pub proof fn lemma_first_value_tail(
    a: Seq<Arc<SsTable>>,
    b: Seq<Arc<SsTable>>,
    key: Seq<u8>,
    from: int,
)
    requires
        0 <= from <= b.len(),
    ensures
        first_value(a + b, key, a.len() + from) == first_value(b, key, from),
    decreases b.len() - from,
{
    if from < b.len() {
        assert((a + b)[a.len() + from] == b[from]);
        lemma_first_value_tail(a, b, key, from + 1);
    }
}

/// Tables and then other tables have for a key what the first of them have
/// for it, and what the others have where the first do not have the key.
pub proof fn lemma_first_value_concat(
    a: Seq<Arc<SsTable>>,
    b: Seq<Arc<SsTable>>,
    key: Seq<u8>,
    from: int,
)
    requires
        0 <= from <= a.len(),
    ensures
        first_value(a + b, key, from) == match first_value(a, key, from) {
            Some(value) => Some(value),
            None => first_value(b, key, 0),
        },
    decreases a.len() - from,
{
    if from < a.len() {
        assert((a + b)[from] == a[from]);
        lemma_first_value_concat(a, b, key, from + 1);
    } else {
        lemma_first_value_tail(a, b, key, 0);
    }
}

/// Where the tables from number `from` on have something for a key, one of
/// them has it.
pub proof fn lemma_first_value_some(tables: Seq<Arc<SsTable>>, key: Seq<u8>, from: int) -> (at:
    int)
    requires
        0 <= from,
        first_value(tables, key, from) is Some,
    ensures
        from <= at < tables.len(),
        tables[at].value_of(key) == first_value(tables, key, from),
    decreases tables.len() - from,
{
    if tables[from].value_of(key) is Some {
        from
    } else {
        lemma_first_value_some(tables, key, from + 1)
    }
}

/// Where the tables from number `from` on have nothing for a key, none of
/// them has the key.
pub proof fn lemma_first_value_nowhere(tables: Seq<Arc<SsTable>>, key: Seq<u8>, from: int)
    requires
        0 <= from,
        first_value(tables, key, from) is None,
    ensures
        forall|i: int| from <= i < tables.len() ==> (#[trigger] tables[i]).value_of(key) is None,
    decreases tables.len() - from,
{
    if from < tables.len() {
        lemma_first_value_nowhere(tables, key, from + 1);
    }
}

/// In a level of intact tables that stand one before the other, a lookup
/// finds the key in the table that has it.
pub proof fn lemma_held(tables: Seq<Arc<SsTable>>, key: Seq<u8>, at: int)
    requires
        level_sorted(tables),
        all_intact(tables),
        0 <= at < tables.len(),
        tables[at].value_of(key) is Some,
    ensures
        level_value(tables, key) == tables[at].value_of(key),
{
    lemma_level_lookup(tables, key);
    let x = choose|x: int|
        0 <= x < tables[at].entries().len() && (#[trigger] tables[at].entries()[x]).0 == key;
    tables[at].lemma_holds_within(x);
    lemma_key_lt_irreflexive(key);
    assert forall|j: int| 0 <= j < at implies (#[trigger] tables[j]).value_of(key) is None by {
        if has_key(tables[j].entries(), key) {
            let y = choose|y: int|
                0 <= y < tables[j].entries().len() && (#[trigger] tables[j].entries()[y]).0 == key;
            tables[j].lemma_holds_within(y);
            assert(key_lt(tables[j].biggest(), tables[at].smallest()));
            lemma_key_le_lt(key, tables[j].biggest(), tables[at].smallest());
            lemma_key_lt_le(key, tables[at].smallest(), key);
        }
    }
    lemma_first_value_at(tables, key, 0, at);
}

/// A level of intact tables that stand one before the other and of which
/// none has the key has nothing for it.
pub proof fn lemma_unheld(tables: Seq<Arc<SsTable>>, key: Seq<u8>)
    requires
        level_sorted(tables),
        all_intact(tables),
        forall|i: int| 0 <= i < tables.len() ==> (#[trigger] tables[i]).value_of(key) is None,
    ensures
        level_value(tables, key) is None,
{
    lemma_level_lookup(tables, key);
    lemma_first_value_none(tables, key, 0);
}

/// Those of tables that stand one before the other which overlap a chosen
/// table stand one before the other.
pub proof fn lemma_family_sorted(next: Seq<Arc<SsTable>>, picked: Seq<Arc<SsTable>>, upto: int)
    requires
        level_sorted(next),
        0 <= upto <= next.len(),
    ensures
        level_sorted(family(next, picked, upto)),
    decreases upto,
{
    if upto > 0 {
        lemma_family_sorted(next, picked, upto - 1);
        lemma_family(next, picked, upto - 1);
        let before = family(next, picked, upto - 1);
        let now = family(next, picked, upto);
        assert forall|i: int, j: int| 0 <= i < j < now.len() implies key_lt(
            (#[trigger] now[i]).biggest(),
            (#[trigger] now[j]).smallest(),
        ) by {
            if j < before.len() {
                assert(now[i] == before[i] && now[j] == before[j]);
            } else {
                assert(now[i] == before[i]);
                let front = next.take(upto - 1);
                assert(front.contains(before[i]));
                let p = choose|p: int| 0 <= p < front.len() && front[p] == before[i];
                assert(next[p] == before[i]);
                assert(now[j] == next[upto - 1]);
                assert(key_lt(next[p].biggest(), next[upto - 1].smallest()));
            }
        }
    }
}

/// What a compaction makes of a span of keys has a key only where a table
/// of the task has it.
pub proof fn lemma_compacted_held(task: Task, lower: Seq<u8>, upper: Bound<Seq<u8>>, key: Seq<u8>)
    requires
        task_sound(task),
        value_in(compacted(task, lower, upper), key) is Some,
    ensures
        first_value(task.tables(), key, 0) is Some,
{
    lemma_task_entries_sorted(task);
    lemma_span_members(merged(task_entries(task)), lower, upper, key);
    lemma_merged_value(task_entries(task), key);
    lemma_first_value_entries(task.tables(), task_entries(task), key, 0);
}

/// What holds of the task that is chosen for a compaction of level 0 among
/// sound levels: its tables are sound, every table of level 0 is among
/// them, its tables of level 1 are tables of level 1, and a table of level
/// 1 with the id of one of them is one of them.
pub proof fn lemma_l0_task(
    before: Seq<Seq<Arc<SsTable>>>,
    reserved: Seq<Set<u64>>,
    live: Map<u64, usize>,
    task: Task,
)
    requires
        2 <= before.len(),
        tables_live(before, live),
        tables_distinct(before),
        levels_sound(before),
        chosen(before, reserved, 0, task),
    ensures
        task_sound(task),
        all_intact(task.tables()),
        forall|i: int|
            0 <= i < before[0].len() ==> ids_of(task.tables()).contains(
                (#[trigger] before[0][i]).id(),
            ),
        forall|f: int|
            0 <= f < task.next_tables@.len() ==> before[1].contains(#[trigger] task.next_tables@[f]),
        forall|q: int|
            0 <= q < before[1].len() && ids_of(task.tables()).contains(
                (#[trigger] before[1][q]).id(),
            ) ==> task.next_tables@.contains(before[1][q]),
{
    let this = task.this_tables@;
    let next = task.next_tables@;
    let all = task.tables();
    let l0 = before[0];
    let l1 = before[1];
    lemma_family(l1, this, l1.len() as int);
    assert(l1.take(l1.len() as int) =~= l1);
    assert forall|f: int| 0 <= f < next.len() implies l1.contains(#[trigger] next[f]) by {}
    assert forall|j: int| 0 <= j < all.len() implies (#[trigger] all[j]).wf() && all[j].sound() by {
        if j < this.len() {
            assert(all[j] == this[j]);
            assert(this[j] == l0[l0.len() - 1 - j]);
            assert(before[0][l0.len() - 1 - j].sound());
        } else {
            let f = j - this.len();
            assert(all[j] == next[f]);
            assert(l1.contains(next[f]));
            let q = choose|q: int| 0 <= q < l1.len() && l1[q] == next[f];
            assert(before[1][q].sound());
        }
    }
    assert forall|i: int| 0 <= i < l0.len() implies ids_of(all).contains(
        (#[trigger] before[0][i]).id(),
    ) by {
        let j = l0.len() - 1 - i;
        assert(this[j] == l0[i]);
        assert(all[j] == this[j]);
    }
    assert forall|q: int|
        0 <= q < l1.len() && ids_of(all).contains((#[trigger] before[1][q]).id()) implies next.contains(
        before[1][q],
    ) by {
        let y = before[1][q];
        let j = choose|j: int| 0 <= j < all.len() && (#[trigger] all[j]).id() == y.id();
        assert(live[y.id()] == 1);
        if j < this.len() {
            assert(all[j] == this[j]);
            assert(this[j] == l0[l0.len() - 1 - j]);
            assert(live[before[0][l0.len() - 1 - j].id()] == 0);
        } else {
            let f = j - this.len();
            assert(all[j] == next[f]);
            assert(l1.contains(next[f]));
            let p = choose|p: int| 0 <= p < l1.len() && l1[p] == next[f];
            if p < q {
                assert(before[1][p].id() != before[1][q].id());
            } else if q < p {
                assert(before[1][q].id() != before[1][p].id());
            }
            assert(next[f] == y);
        }
    }
}

/// The keys of the tables of a compaction of level 0 lie between the first
/// and the last of the keys at which the compaction can be split, where
/// the tables of level 1 stand one before the other.
pub proof fn lemma_l0_spanned(
    before: Seq<Seq<Arc<SsTable>>>,
    reserved: Seq<Set<u64>>,
    task: Task,
    lower: Seq<u8>,
    upper: Seq<u8>,
    at: int,
    key: Seq<u8>,
)
    requires
        2 <= before.len(),
        chosen(before, reserved, 0, task),
        all_intact(task.tables()),
        level_sorted(before[1]),
        forall|b: Seq<u8>| #[trigger]
            is_boundary(task, b) ==> key_le(lower, b) && key_le(b, upper),
        0 <= at < task.tables().len(),
        task.tables()[at].value_of(key) is Some,
    ensures
        key_le(lower, key),
        key_le(key, upper),
{
    let this = task.this_tables@;
    let next = task.next_tables@;
    let table = task.tables()[at];
    let x = choose|x: int|
        0 <= x < table.entries().len() && (#[trigger] table.entries()[x]).0 == key;
    table.lemma_holds_within(x);
    table.lemma_key_range();
    if at < this.len() {
        assert(table == this[at]);
        assert(is_boundary(task, table.smallest()));
        assert(is_boundary(task, table.biggest()));
        lemma_key_le_transitive(lower, table.smallest(), key);
        lemma_key_le_transitive(key, table.biggest(), upper);
    } else {
        let f = at - this.len();
        assert(table == next[f]);
        assert(is_boundary(task, table.smallest()));
        lemma_key_le_transitive(lower, table.smallest(), key);
        let last = next.last();
        assert(is_boundary(task, last.biggest()));
        lemma_family_sorted(before[1], this, before[1].len() as int);
        if f < next.len() - 1 {
            assert(last == next[next.len() - 1]);
            assert(last == task.tables()[task.tables().len() - 1]);
            last.lemma_key_range();
            assert(key_lt(next[f].biggest(), next[next.len() - 1].smallest()));
            lemma_key_le_lt(key, table.biggest(), last.smallest());
            lemma_key_lt_le(key, last.smallest(), last.biggest());
            lemma_key_lt_le(key, last.biggest(), upper);
        } else {
            lemma_key_le_transitive(key, table.biggest(), upper);
        }
    }
}

/// The level that has taken the result of a compaction holds the tables
/// that stayed in it and the new tables, and they are intact where the
/// tables were sound and the new tables are.
pub proof fn lemma_next_level(
    before: Seq<Seq<Arc<SsTable>>>,
    after: Seq<Seq<Arc<SsTable>>>,
    task: Task,
    created: Seq<Arc<SsTable>>,
)
    requires
        levels_sound(before),
        replaced(before, after, task, created),
        0 <= task.next_level_id < before.len(),
        forall|k: int| 0 <= k < created.len() ==> (#[trigger] created[k]).wf() && created[k].sound(),
    ensures
        all_intact(after[task.next_level_id as int]),
        forall|x: Arc<SsTable>| #[trigger]
            after[task.next_level_id as int].contains(x) <==> created.contains(x) || (
            before[task.next_level_id as int].contains(x) && !ids_of(task.tables()).contains(
                x.id(),
            )),
{
    let next = task.next_level_id as int;
    let gone = ids_of(task.tables());
    let stay = kept(before[next], gone, before[next].len() as int);
    lemma_kept(before[next], gone, before[next].len() as int);
    lemma_same_elements(stay + created, after[next]);
    assert forall|x: Arc<SsTable>| #[trigger]
        after[next].contains(x) <==> created.contains(x) || (before[next].contains(x)
            && !gone.contains(x.id())) by {
        if (stay + created).contains(x) {
            let k = choose|k: int| 0 <= k < (stay + created).len() && (stay + created)[k] == x;
            if k < stay.len() {
                assert(stay[k] == x);
                assert(stay.contains(x));
            } else {
                assert(created[k - stay.len()] == x);
            }
        }
        if created.contains(x) {
            let k = choose|k: int| 0 <= k < created.len() && created[k] == x;
            assert((stay + created)[stay.len() + k] == x);
        }
        if before[next].contains(x) && !gone.contains(x.id()) {
            assert(stay.contains(x));
            let k = choose|k: int| 0 <= k < stay.len() && stay[k] == x;
            assert((stay + created)[k] == x);
        }
    }
    assert forall|i: int| 0 <= i < after[next].len() implies (#[trigger] after[next][i]).wf()
        && after[next][i].intact() by {
        let x = after[next][i];
        assert(after[next].contains(x));
        if created.contains(x) {
            let k = choose|k: int| 0 <= k < created.len() && created[k] == x;
            assert(created[k].sound());
        } else {
            let q = choose|q: int| 0 <= q < before[next].len() && before[next][q] == x;
            assert(before[next][q].sound());
        }
    }
}

/// A level of intact tables that stand one before the other has for a key
/// what some of its tables have for it, where they have something.
pub proof fn lemma_level_found(level: Seq<Arc<SsTable>>, part: Seq<Arc<SsTable>>, key: Seq<u8>)
    requires
        level_sorted(level),
        all_intact(level),
        forall|f: int| 0 <= f < part.len() ==> level.contains(#[trigger] part[f]),
        first_value(part, key, 0) is Some,
    ensures
        level_value(level, key) == first_value(part, key, 0),
{
    let f = lemma_first_value_some(part, key, 0);
    assert(level.contains(part[f]));
    let q = choose|q: int| 0 <= q < level.len() && level[q] == part[f];
    lemma_held(level, key, q);
}

/// A level has for a key what it had before a compaction has replaced
/// tables of it that do not have the key by tables that do not have it.
pub proof fn lemma_level_same(
    had: Seq<Arc<SsTable>>,
    has: Seq<Arc<SsTable>>,
    gone: Set<u64>,
    left: Seq<Arc<SsTable>>,
    created: Seq<Arc<SsTable>>,
    key: Seq<u8>,
)
    requires
        level_sorted(had),
        all_intact(had),
        level_sorted(has),
        all_intact(has),
        forall|x: Arc<SsTable>| #[trigger]
            has.contains(x) <==> created.contains(x) || (had.contains(x) && !gone.contains(x.id())),
        forall|q: int|
            0 <= q < had.len() && gone.contains((#[trigger] had[q]).id()) ==> left.contains(had[q]),
        first_value(left, key, 0) is None,
        first_value(created, key, 0) is None,
    ensures
        level_value(has, key) == level_value(had, key),
{
    lemma_first_value_nowhere(left, key, 0);
    lemma_first_value_nowhere(created, key, 0);
    if exists|q: int| 0 <= q < had.len() && (#[trigger] had[q]).value_of(key) is Some {
        let q = choose|q: int| 0 <= q < had.len() && (#[trigger] had[q]).value_of(key) is Some;
        let y = had[q];
        lemma_held(had, key, q);
        assert(had.contains(y));
        if gone.contains(y.id()) {
            assert(left.contains(y));
            let f = choose|f: int| 0 <= f < left.len() && left[f] == y;
            assert(left[f].value_of(key) is None);
        }
        assert(has.contains(y));
        let p = choose|p: int| 0 <= p < has.len() && has[p] == y;
        lemma_held(has, key, p);
    } else {
        lemma_unheld(had, key);
        assert forall|p: int| 0 <= p < has.len() implies (#[trigger] has[p]).value_of(key) is None by {
            let x = has[p];
            assert(has.contains(x));
            if created.contains(x) {
                let k = choose|k: int| 0 <= k < created.len() && created[k] == x;
                assert(created[k].value_of(key) is None);
            } else {
                let q = choose|q: int| 0 <= q < had.len() && had[q] == x;
                assert(had[q].value_of(key) is None);
            }
        }
        lemma_unheld(has, key);
    }
}

/// After a compaction of level 0, level 0 is empty.
pub proof fn lemma_l0_emptied(
    before: Seq<Seq<Arc<SsTable>>>,
    after: Seq<Seq<Arc<SsTable>>>,
    task: Task,
    created: Seq<Arc<SsTable>>,
)
    requires
        2 <= before.len(),
        task.this_level_id == 0,
        task.next_level_id == 1,
        replaced(before, after, task, created),
        forall|i: int|
            0 <= i < before[0].len() ==> ids_of(task.tables()).contains(
                (#[trigger] before[0][i]).id(),
            ),
    ensures
        after[0].len() == 0,
        after.len() == before.len(),
        forall|l: int| 2 <= l < after.len() ==> #[trigger] after[l] == before[l],
{
    let gone = ids_of(task.tables());
    lemma_kept(before[0], gone, before[0].len() as int);
    if after[0].len() > 0 {
        let x = after[0][0];
        assert(after[0].contains(x));
        let i = choose|i: int| 0 <= i < before[0].len() && before[0][i] == x;
        assert(gone.contains(before[0][i].id()));
    }
}

/// What the tables of a compaction of level 0 have for a key is what the
/// levels 0 and 1 had for it before the compaction, and what level 1 has
/// for it afterwards; where they do not have the key, level 1 has for it
/// what it had.
#[verifier::spinoff_prover]
#[verifier::rlimit(60)]
pub proof fn lemma_l0_level_values(
    before: Seq<Seq<Arc<SsTable>>>,
    after: Seq<Seq<Arc<SsTable>>>,
    reserved: Seq<Set<u64>>,
    live: Map<u64, usize>,
    done: Compacted,
    key: Seq<u8>,
)
    requires
        2 <= before.len(),
        tables_live(before, live),
        tables_distinct(before),
        levels_sound(before),
        chosen(before, reserved, 0, done.task),
        replaced(before, after, done.task, done.created@),
        well_done(done),
        forall|k: int| 0 <= k < done.created@.len() ==> (#[trigger] done.created@[k]).wf(),
        forall|b: Seq<u8>| #[trigger]
            is_boundary(done.task, b) ==> key_le(done.lower@, b) && key_le(b, done.upper@),
        level_sorted(before[1]),
        level_sorted(after[1]),
    ensures
        level_value(after[1], key) == match first_value(newest_first(before[0]), key, 0) {
            Some(value) => Some(value),
            None => level_value(before[1], key),
        },
{
    let task = done.task;
    let this = task.this_tables@;
    let next = task.next_tables@;
    let created = done.created@;
    let gone = ids_of(task.tables());
    lemma_l0_task(before, reserved, live, task);
    lemma_next_level(before, after, task, created);
    assert(all_intact(before[1])) by {
        assert forall|i: int| 0 <= i < before[1].len() implies (#[trigger] before[1][i]).wf()
            && before[1][i].intact() by {
            assert(before[1][i].sound());
        }
    }
    lemma_first_value_concat(this, next, key, 0);
    assert(task.tables() == this + next);
    lemma_compacted_sorted(task, done.lower@, Bound::Included(done.upper@));
    lemma_flat_value(created, key);
    if first_value(task.tables(), key, 0) is Some {
        let at = lemma_first_value_some(task.tables(), key, 0);
        lemma_l0_spanned(before, reserved, task, done.lower@, done.upper@, at, key);
        lemma_compaction_keeps_values(done, key);
        assert forall|c: int| 0 <= c < created.len() implies after[1].contains(
            #[trigger] created[c],
        ) by {
            assert(created.contains(created[c]));
        }
        lemma_level_found(after[1], created, key);
        if first_value(this, key, 0) is None {
            lemma_level_found(before[1], next, key);
        }
    } else {
        if first_value(created, key, 0) is Some {
            lemma_compacted_held(task, done.lower@, Bound::Included(done.upper@), key);
        }
        lemma_level_same(before[1], after[1], gone, next, created, key);
    }
}

/// A compaction of level 0 keeps what the levels have stored for every
/// key, where the tables are sound and those of level 1 stand one before
/// the other, before the compaction and after it.
pub proof fn lemma_l0_compaction_keeps_lookups(
    before: Seq<Seq<Arc<SsTable>>>,
    after: Seq<Seq<Arc<SsTable>>>,
    reserved: Seq<Set<u64>>,
    live: Map<u64, usize>,
    done: Compacted,
    key: Seq<u8>,
)
    requires
        2 <= before.len(),
        tables_live(before, live),
        tables_distinct(before),
        levels_sound(before),
        chosen(before, reserved, 0, done.task),
        replaced(before, after, done.task, done.created@),
        well_done(done),
        forall|k: int| 0 <= k < done.created@.len() ==> (#[trigger] done.created@[k]).wf(),
        forall|b: Seq<u8>| #[trigger]
            is_boundary(done.task, b) ==> key_le(done.lower@, b) && key_le(b, done.upper@),
        level_sorted(before[1]),
        level_sorted(after[1]),
    ensures
        stored_value(after, key) == stored_value(before, key),
{
    lemma_l0_task(before, reserved, live, done.task);
    lemma_l0_emptied(before, after, done.task, done.created@);
    lemma_l0_level_values(before, after, reserved, live, done, key);
    lemma_deeper_same(after, before, key, 2);
    assert(first_value(newest_first(after[0]), key, 0) is None);
    assert(super::deeper_value(after, key, 1) == match level_value(after[1], key) {
        Some(value) => Some(value),
        None => super::deeper_value(after, key, 2),
    });
    assert(super::deeper_value(before, key, 1) == match level_value(before[1], key) {
        Some(value) => Some(value),
        None => super::deeper_value(before, key, 2),
    });
}

/// What is kept of tables that stand one before the other stands one
/// before the other.
pub proof fn lemma_kept_sorted(tables: Seq<Arc<SsTable>>, gone: Set<u64>, upto: int)
    requires
        level_sorted(tables),
        0 <= upto <= tables.len(),
    ensures
        level_sorted(kept(tables, gone, upto)),
    decreases upto,
{
    if upto > 0 {
        lemma_kept_sorted(tables, gone, upto - 1);
        lemma_kept(tables, gone, upto - 1);
        let before = kept(tables, gone, upto - 1);
        let now = kept(tables, gone, upto);
        assert forall|i: int, j: int| 0 <= i < j < now.len() implies key_lt(
            (#[trigger] now[i]).biggest(),
            (#[trigger] now[j]).smallest(),
        ) by {
            if j < before.len() {
                assert(now[i] == before[i] && now[j] == before[j]);
            } else {
                assert(now[i] == before[i]);
                let front = tables.take(upto - 1);
                assert(front.contains(before[i]));
                let p = choose|p: int| 0 <= p < front.len() && front[p] == before[i];
                assert(tables[p] == before[i]);
                assert(now[j] == tables[upto - 1]);
                assert(key_lt(tables[p].biggest(), tables[upto - 1].smallest()));
            }
        }
    }
}

/// What holds of the task that is chosen for a compaction of a level below
/// level 0 among sound levels: its tables are sound and are tables of
/// their levels, and a table of these levels with the id of one of them is
/// one of them.
pub proof fn lemma_task_members(
    before: Seq<Seq<Arc<SsTable>>>,
    reserved: Seq<Set<u64>>,
    live: Map<u64, usize>,
    task: Task,
    level: int,
)
    requires
        1 <= level,
        level + 1 < before.len(),
        tables_live(before, live),
        tables_distinct(before),
        levels_sound(before),
        chosen(before, reserved, level, task),
    ensures
        task_sound(task),
        all_intact(task.tables()),
        forall|f: int|
            0 <= f < task.this_tables@.len() ==> before[level].contains(
                #[trigger] task.this_tables@[f],
            ),
        forall|f: int|
            0 <= f < task.next_tables@.len() ==> before[level + 1].contains(
                #[trigger] task.next_tables@[f],
            ),
        forall|q: int|
            0 <= q < before[level].len() && ids_of(task.tables()).contains(
                (#[trigger] before[level][q]).id(),
            ) ==> task.this_tables@.contains(before[level][q]),
        forall|q: int|
            0 <= q < before[level + 1].len() && ids_of(task.tables()).contains(
                (#[trigger] before[level + 1][q]).id(),
            ) ==> task.next_tables@.contains(before[level + 1][q]),
{
    let this = task.this_tables@;
    let next = task.next_tables@;
    let all = task.tables();
    let la = before[level];
    let lb = before[level + 1];
    lemma_family(lb, this, lb.len() as int);
    assert(lb.take(lb.len() as int) =~= lb);
    assert forall|f: int| 0 <= f < next.len() implies lb.contains(#[trigger] next[f]) by {}
    assert forall|f: int| 0 <= f < this.len() implies la.contains(#[trigger] this[f]) by {
        assert(this.contains(this[f]));
    }
    assert forall|j: int| 0 <= j < all.len() implies (#[trigger] all[j]).wf() && all[j].sound()
        && live[all[j].id()] == (if j < this.len() {
        level
    } else {
        level + 1
    }) by {
        if j < this.len() {
            assert(all[j] == this[j]);
            assert(la.contains(this[j]));
            let q = choose|q: int| 0 <= q < la.len() && la[q] == this[j];
            assert(before[level][q].sound());
        } else {
            let f = j - this.len();
            assert(all[j] == next[f]);
            assert(lb.contains(next[f]));
            let q = choose|q: int| 0 <= q < lb.len() && lb[q] == next[f];
            assert(before[level + 1][q].sound());
        }
    }
    assert forall|q: int|
        0 <= q < la.len() && ids_of(all).contains((#[trigger] before[level][q]).id()) implies this.contains(
        before[level][q],
    ) by {
        let y = before[level][q];
        let j = choose|j: int| 0 <= j < all.len() && (#[trigger] all[j]).id() == y.id();
        assert(live[y.id()] == level);
        assert(all[j].wf());
        assert(j < this.len());
        assert(all[j] == this[j]);
        assert(la.contains(this[j]));
        let p = choose|p: int| 0 <= p < la.len() && la[p] == this[j];
        if p < q {
            assert(before[level][p].id() != before[level][q].id());
        } else if q < p {
            assert(before[level][q].id() != before[level][p].id());
        }
        assert(this[j] == y);
    }
    assert forall|q: int|
        0 <= q < lb.len() && ids_of(all).contains((#[trigger] before[level + 1][q]).id()) implies next.contains(
        before[level + 1][q],
    ) by {
        let y = before[level + 1][q];
        let j = choose|j: int| 0 <= j < all.len() && (#[trigger] all[j]).id() == y.id();
        assert(live[y.id()] == level + 1);
        assert(all[j].wf());
        assert(j >= this.len());
        let f = j - this.len();
        assert(all[j] == next[f]);
        assert(lb.contains(next[f]));
        let p = choose|p: int| 0 <= p < lb.len() && lb[p] == next[f];
        if p < q {
            assert(before[level + 1][p].id() != before[level + 1][q].id());
        } else if q < p {
            assert(before[level + 1][q].id() != before[level + 1][p].id());
        }
        assert(next[f] == y);
    }
}

/// The level that was compacted holds the tables that stayed in it; they
/// are intact where the tables were sound, and stand one before the other
/// where the tables did.
pub proof fn lemma_this_level(
    before: Seq<Seq<Arc<SsTable>>>,
    after: Seq<Seq<Arc<SsTable>>>,
    task: Task,
    created: Seq<Arc<SsTable>>,
)
    requires
        levels_sound(before),
        replaced(before, after, task, created),
        0 <= task.this_level_id < before.len(),
    ensures
        all_intact(after[task.this_level_id as int]),
        level_sorted(before[task.this_level_id as int]) ==> level_sorted(
            after[task.this_level_id as int],
        ),
        forall|x: Arc<SsTable>| #[trigger]
            after[task.this_level_id as int].contains(x) <==> before[task.this_level_id as int].contains(
                x,
            ) && !ids_of(task.tables()).contains(x.id()),
{
    let this = task.this_level_id as int;
    let gone = ids_of(task.tables());
    lemma_kept(before[this], gone, before[this].len() as int);
    if level_sorted(before[this]) {
        lemma_kept_sorted(before[this], gone, before[this].len() as int);
    }
    assert forall|i: int| 0 <= i < after[this].len() implies (#[trigger] after[this][i]).wf()
        && after[this][i].intact() by {
        let x = after[this][i];
        assert(after[this].contains(x));
        let q = choose|q: int| 0 <= q < before[this].len() && before[this][q] == x;
        assert(before[this][q].sound());
    }
}

/// A level of intact tables that stand one before the other has nothing
/// for a key once the table that had the key has left it.
pub proof fn lemma_level_lost(
    had: Seq<Arc<SsTable>>,
    has: Seq<Arc<SsTable>>,
    gone: Set<u64>,
    left: Seq<Arc<SsTable>>,
    key: Seq<u8>,
)
    requires
        level_sorted(had),
        all_intact(had),
        level_sorted(has),
        all_intact(has),
        forall|x: Arc<SsTable>| #[trigger]
            has.contains(x) <==> had.contains(x) && !gone.contains(x.id()),
        forall|f: int|
            0 <= f < left.len() ==> had.contains(#[trigger] left[f]) && gone.contains(left[f].id()),
        first_value(left, key, 0) is Some,
    ensures
        level_value(has, key) is None,
        level_value(had, key) == first_value(left, key, 0),
{
    lemma_level_found(had, left, key);
    let f = lemma_first_value_some(left, key, 0);
    let q = choose|q: int| 0 <= q < had.len() && had[q] == left[f];
    lemma_level_lookup(had, key);
    assert forall|p: int| 0 <= p < has.len() implies (#[trigger] has[p]).value_of(key) is None by {
        let x = has[p];
        assert(has.contains(x));
        if x.value_of(key) is Some {
            let r = choose|r: int| 0 <= r < had.len() && had[r] == x;
            lemma_held(had, key, r);
            lemma_held(had, key, q);
            if r != q {
                lemma_one_holder(had, key, q, r);
            }
        }
    }
    lemma_unheld(has, key);
}

/// In a level of intact tables that stand one before the other, at most
/// one table has a key.
pub proof fn lemma_one_holder(tables: Seq<Arc<SsTable>>, key: Seq<u8>, a: int, b: int)
    requires
        level_sorted(tables),
        all_intact(tables),
        0 <= a < tables.len(),
        0 <= b < tables.len(),
        tables[a].value_of(key) is Some,
        tables[b].value_of(key) is Some,
    ensures
        a == b,
{
    let x = choose|x: int|
        0 <= x < tables[a].entries().len() && (#[trigger] tables[a].entries()[x]).0 == key;
    let y = choose|y: int|
        0 <= y < tables[b].entries().len() && (#[trigger] tables[b].entries()[y]).0 == key;
    tables[a].lemma_holds_within(x);
    tables[b].lemma_holds_within(y);
    lemma_key_lt_irreflexive(key);
    if a < b {
        assert(key_lt(tables[a].biggest(), tables[b].smallest()));
        lemma_key_le_lt(key, tables[a].biggest(), tables[b].smallest());
        lemma_key_lt_le(key, tables[b].smallest(), key);
    } else if b < a {
        assert(key_lt(tables[b].biggest(), tables[a].smallest()));
        lemma_key_le_lt(key, tables[b].biggest(), tables[a].smallest());
        lemma_key_lt_le(key, tables[a].smallest(), key);
    }
}

/// What a level and the next have for a key: what the level has, and what
/// the next has where the level does not have the key.
pub open spec fn pair_value(levels: Seq<Seq<Arc<SsTable>>>, level: int, key: Seq<u8>) -> Option<
    Seq<u8>,
> {
    match level_value(levels[level], key) {
        Some(value) => Some(value),
        None => level_value(levels[level + 1], key),
    }
}

/// Levels that differ in one level and the next alone, and have in the two
/// together the same for a key, have the same for it from every level
/// above them on.
pub proof fn lemma_deeper_pair(
    a: Seq<Seq<Arc<SsTable>>>,
    b: Seq<Seq<Arc<SsTable>>>,
    key: Seq<u8>,
    level: int,
    from: int,
)
    requires
        a.len() == b.len(),
        0 <= from <= level,
        level + 1 < a.len(),
        forall|l: int| 0 <= l < a.len() && l != level && l != level + 1 ==> #[trigger] a[l] == b[l],
        pair_value(a, level, key) == pair_value(b, level, key),
    ensures
        super::deeper_value(a, key, from) == super::deeper_value(b, key, from),
    decreases level - from,
{
    if from < level {
        assert(a[from] == b[from]);
        lemma_deeper_pair(a, b, key, level, from + 1);
    } else {
        lemma_deeper_same(a, b, key, level + 2);
        assert(super::deeper_value(a, key, level + 1) == match level_value(a[level + 1], key) {
            Some(value) => Some(value),
            None => super::deeper_value(a, key, level + 2),
        });
        assert(super::deeper_value(b, key, level + 1) == match level_value(b[level + 1], key) {
            Some(value) => Some(value),
            None => super::deeper_value(b, key, level + 2),
        });
    }
}

/// The keys of the tables of the task lie between two keys.
pub open spec fn task_within(task: Task, lower: Seq<u8>, upper: Seq<u8>) -> bool {
    forall|j: int|
        0 <= j < task.tables().len() ==> key_le(lower, (#[trigger] task.tables()[j]).smallest())
            && key_le(task.tables()[j].biggest(), upper)
}

/// What the level of a compaction has for a key once its tables of the
/// task have left it: nothing where one of them had the key, and else what
/// it had.
#[verifier::spinoff_prover]
pub proof fn lemma_this_value(
    before: Seq<Seq<Arc<SsTable>>>,
    after: Seq<Seq<Arc<SsTable>>>,
    reserved: Seq<Set<u64>>,
    live: Map<u64, usize>,
    done: Compacted,
    key: Seq<u8>,
)
    requires
        1 <= done.task.this_level_id,
        done.task.this_level_id + 1 < before.len(),
        tables_live(before, live),
        tables_distinct(before),
        levels_sound(before),
        chosen(before, reserved, done.task.this_level_id as int, done.task),
        replaced(before, after, done.task, done.created@),
        well_done(done),
        forall|k: int| 0 <= k < done.created@.len() ==> (#[trigger] done.created@[k]).wf(),
        task_within(done.task, done.lower@, done.upper@),
        level_sorted(before[done.task.this_level_id as int]),
        level_sorted(before[done.task.this_level_id + 1]),
        level_sorted(after[done.task.this_level_id + 1]),
    ensures
        match first_value(done.task.this_tables@, key, 0) {
            Some(value) => level_value(after[done.task.this_level_id as int], key) is None
                && level_value(before[done.task.this_level_id as int], key) == Some(value),
            None => level_value(after[done.task.this_level_id as int], key) == level_value(
                before[done.task.this_level_id as int],
                key,
            ),
        },
{
    let task = done.task;
    let level = task.this_level_id as int;
    let this = task.this_tables@;
    let gone = ids_of(task.tables());
    lemma_task_members(before, reserved, live, task, level);
    lemma_this_level(before, after, task, done.created@);
    assert(all_intact(before[level])) by {
        assert forall|i: int| 0 <= i < before[level].len() implies (#[trigger] before[level][i]).wf()
            && before[level][i].intact() by {
            assert(before[level][i].sound());
        }
    }
    if first_value(this, key, 0) is Some {
        assert forall|f: int| 0 <= f < this.len() implies before[level].contains(
            #[trigger] this[f],
        ) && gone.contains(this[f].id()) by {
            assert(task.tables()[f] == this[f]);
        }
        lemma_level_lost(before[level], after[level], gone, this, key);
    } else {
        lemma_level_same(before[level], after[level], gone, this, Seq::empty(), key);
    }
}

/// What the level that takes the result of a compaction has for a key:
/// what the tables of the task had for it, and what the level had where
/// they did not have the key.
#[verifier::spinoff_prover]
pub proof fn lemma_next_value(
    before: Seq<Seq<Arc<SsTable>>>,
    after: Seq<Seq<Arc<SsTable>>>,
    reserved: Seq<Set<u64>>,
    live: Map<u64, usize>,
    done: Compacted,
    key: Seq<u8>,
)
    requires
        1 <= done.task.this_level_id,
        done.task.this_level_id + 1 < before.len(),
        tables_live(before, live),
        tables_distinct(before),
        levels_sound(before),
        chosen(before, reserved, done.task.this_level_id as int, done.task),
        replaced(before, after, done.task, done.created@),
        well_done(done),
        forall|k: int| 0 <= k < done.created@.len() ==> (#[trigger] done.created@[k]).wf(),
        task_within(done.task, done.lower@, done.upper@),
        level_sorted(before[done.task.this_level_id as int]),
        level_sorted(before[done.task.this_level_id + 1]),
        level_sorted(after[done.task.this_level_id + 1]),
    ensures
        match first_value(done.task.tables(), key, 0) {
            Some(value) => level_value(after[done.task.this_level_id + 1], key) == Some(value),
            None => level_value(after[done.task.this_level_id + 1], key) == level_value(
                before[done.task.this_level_id + 1],
                key,
            ),
        },
        first_value(done.task.next_tables@, key, 0) is Some ==> level_value(
            before[done.task.this_level_id + 1],
            key,
        ) == first_value(done.task.next_tables@, key, 0),
{
    let task = done.task;
    let level = task.this_level_id as int;
    let this = task.this_tables@;
    let next = task.next_tables@;
    let created = done.created@;
    let gone = ids_of(task.tables());
    lemma_task_members(before, reserved, live, task, level);
    lemma_next_level(before, after, task, created);
    assert(all_intact(before[level + 1])) by {
        assert forall|i: int| 0 <= i < before[level + 1].len() implies (
        #[trigger] before[level + 1][i]).wf() && before[level + 1][i].intact() by {
            assert(before[level + 1][i].sound());
        }
    }
    lemma_first_value_concat(this, next, key, 0);
    assert(task.tables() == this + next);
    lemma_compacted_sorted(task, done.lower@, Bound::Included(done.upper@));
    lemma_flat_value(created, key);
    if first_value(next, key, 0) is Some {
        lemma_level_found(before[level + 1], next, key);
    }
    if first_value(task.tables(), key, 0) is Some {
        let at = lemma_first_value_some(task.tables(), key, 0);
        let table = task.tables()[at];
        let x = choose|x: int|
            0 <= x < table.entries().len() && (#[trigger] table.entries()[x]).0 == key;
        table.lemma_holds_within(x);
        lemma_key_le_transitive(done.lower@, table.smallest(), key);
        lemma_key_le_transitive(key, table.biggest(), done.upper@);
        lemma_compaction_keeps_values(done, key);
        assert forall|c: int| 0 <= c < created.len() implies after[level + 1].contains(
            #[trigger] created[c],
        ) by {
            assert(created.contains(created[c]));
        }
        lemma_level_found(after[level + 1], created, key);
    } else {
        if first_value(created, key, 0) is Some {
            lemma_compacted_held(task, done.lower@, Bound::Included(done.upper@), key);
        }
        lemma_level_same(before[level + 1], after[level + 1], gone, next, created, key);
    }
}

/// What the level of a compaction and the next have for a key, the two
/// together, is what they had for it before the compaction.
pub proof fn lemma_pair_kept(
    before: Seq<Seq<Arc<SsTable>>>,
    after: Seq<Seq<Arc<SsTable>>>,
    reserved: Seq<Set<u64>>,
    live: Map<u64, usize>,
    done: Compacted,
    key: Seq<u8>,
)
    requires
        1 <= done.task.this_level_id,
        done.task.this_level_id + 1 < before.len(),
        tables_live(before, live),
        tables_distinct(before),
        levels_sound(before),
        chosen(before, reserved, done.task.this_level_id as int, done.task),
        replaced(before, after, done.task, done.created@),
        well_done(done),
        forall|k: int| 0 <= k < done.created@.len() ==> (#[trigger] done.created@[k]).wf(),
        task_within(done.task, done.lower@, done.upper@),
        level_sorted(before[done.task.this_level_id as int]),
        level_sorted(before[done.task.this_level_id + 1]),
        level_sorted(after[done.task.this_level_id + 1]),
    ensures
        pair_value(after, done.task.this_level_id as int, key) == pair_value(
            before,
            done.task.this_level_id as int,
            key,
        ),
{
    lemma_this_value(before, after, reserved, live, done, key);
    lemma_next_value(before, after, reserved, live, done, key);
    lemma_first_value_concat(done.task.this_tables@, done.task.next_tables@, key, 0);
    assert(done.task.tables() == done.task.this_tables@ + done.task.next_tables@);
}

/// The levels around a compaction are such that it keeps every lookup: the
/// tables were sound, the next level stood one table before the other and
/// stands so afterwards, and for a level below level 0 that level stood so
/// too and the keys of the tables of the task lie between the first and the
/// last of the keys at which the compaction could be split.
pub open spec fn sorted_around(
    before: Seq<Seq<Arc<SsTable>>>,
    after: Seq<Seq<Arc<SsTable>>>,
    done: Compacted,
) -> bool {
    let this = done.task.this_level_id as int;
    &&& levels_sound(before)
    &&& level_sorted(before[this + 1])
    &&& level_sorted(after[this + 1])
    &&& this >= 1 ==> level_sorted(before[this]) && task_within(
        done.task,
        done.lower@,
        done.upper@,
    )
}

/// A compaction of a level below level 0 keeps what the levels have stored
/// for every key, where the tables are sound, the keys of the tables of
/// the task lie between the first and the last of the keys at which the
/// compaction could be split, and the tables of the level and of the next
/// stand one before the other, before the compaction and after it.
pub proof fn lemma_compaction_keeps_lookups(
    before: Seq<Seq<Arc<SsTable>>>,
    after: Seq<Seq<Arc<SsTable>>>,
    reserved: Seq<Set<u64>>,
    live: Map<u64, usize>,
    done: Compacted,
    key: Seq<u8>,
)
    requires
        1 <= done.task.this_level_id,
        done.task.this_level_id + 1 < before.len(),
        tables_live(before, live),
        tables_distinct(before),
        levels_sound(before),
        chosen(before, reserved, done.task.this_level_id as int, done.task),
        replaced(before, after, done.task, done.created@),
        well_done(done),
        forall|k: int| 0 <= k < done.created@.len() ==> (#[trigger] done.created@[k]).wf(),
        task_within(done.task, done.lower@, done.upper@),
        level_sorted(before[done.task.this_level_id as int]),
        level_sorted(before[done.task.this_level_id + 1]),
        level_sorted(after[done.task.this_level_id + 1]),
    ensures
        stored_value(after, key) == stored_value(before, key),
{
    let level = done.task.this_level_id as int;
    lemma_pair_kept(before, after, reserved, live, done, key);
    assert(after[0] == before[0]);
    lemma_deeper_pair(after, before, key, level, 1);
}

} // verus!
