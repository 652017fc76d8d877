//! Putting tables in order.

use crate::foreign::share;
use crate::key::{
    compare_keys, key_le, lemma_key_le_not_gt, lemma_key_le_transitive, lemma_key_trichotomy,
    KeyOrder,
};
use crate::table::SsTable;
use std::sync::Arc;
use vstd::prelude::*;

verus! {

broadcast use vstd::seq_lib::group_to_multiset_ensures;

/// The two orders in which tables are put.
#[derive(Clone, Copy, Debug, PartialEq, Eq, Structural)]
pub enum TableOrder {
    /// By their first keys, the smaller first.
    BySmallestKey,
    /// By their sizes, the larger first.
    BySizeDescending,
}

/// `a` may stand before `b` in the order.
pub open spec fn precedes(a: SsTable, b: SsTable, order: TableOrder) -> bool {
    match order {
        TableOrder::BySmallestKey => key_le(a.smallest(), b.smallest()),
        TableOrder::BySizeDescending => a.spec_size() >= b.spec_size(),
    }
}

/// The tables stand in the order.
pub open spec fn in_order(tables: Seq<Arc<SsTable>>, order: TableOrder) -> bool {
    forall|i: int, j: int|
        0 <= i < j < tables.len() ==> precedes(*#[trigger] tables[i], *#[trigger] tables[j], order)
}

/// Whether `a` may stand before `b` in the order.
fn may_precede(a: &SsTable, b: &SsTable, order: TableOrder) -> (yes: bool)
    ensures
        yes == precedes(*a, *b, order),
{
    match order {
        TableOrder::BySmallestKey => compare_keys(a.smallest_key(), b.smallest_key())
            != KeyOrder::Greater,
        TableOrder::BySizeDescending => a.size() >= b.size(),
    }
}

/// Of two tables one may stand before the other, and what may stand before
/// a table may stand before what that table may stand before.
pub proof fn lemma_precedes(a: SsTable, b: SsTable, c: SsTable, order: TableOrder)
    ensures
        precedes(a, b, order) || precedes(b, a, order),
        precedes(a, b, order) && precedes(b, c, order) ==> precedes(a, c, order),
{
    lemma_key_trichotomy(a.smallest(), b.smallest());
    if key_le(a.smallest(), b.smallest()) && key_le(b.smallest(), c.smallest()) {
        lemma_key_le_transitive(a.smallest(), b.smallest(), c.smallest());
    }
}

/// A sequence with one more element somewhere in it has the elements it
/// had, and that one.
pub proof fn lemma_insert_multiset(s: Seq<Arc<SsTable>>, at: int, x: Arc<SsTable>)
    requires
        0 <= at <= s.len(),
    ensures
        s.insert(at, x).to_multiset() == s.to_multiset().insert(x),
{
    let t = s.insert(at, x);
    assert(t.remove(at) =~= s);
    assert(t[at] == x);
    assert(t.remove(at).to_multiset() =~= t.to_multiset().remove(x));
    assert(t.to_multiset().count(x) > 0) by {
        assert(t.contains(x));
    }
    assert(t.to_multiset() =~= s.to_multiset().insert(x));
}

/// `out` is `tables` in another order: `from` says for each place of `out`
/// the place of `tables` that its table comes from, and no two places of
/// `out` take from the same place.
pub open spec fn rearranged(
    tables: Seq<Arc<SsTable>>,
    out: Seq<Arc<SsTable>>,
    from: Seq<int>,
) -> bool {
    &&& from.len() == out.len()
    &&& forall|k: int|
        0 <= k < out.len() ==> 0 <= #[trigger] from[k] < tables.len() && out[k] == tables[from[k]]
    &&& forall|a: int, b: int|
        0 <= a < b < out.len() ==> #[trigger] from[a] != #[trigger] from[b]
}

/// The tables in the order `order`; tables that the order does not tell
/// apart stay as they stood, and so do all where they stand in the order
/// already.
pub fn sort_tables(tables: &Vec<Arc<SsTable>>, order: TableOrder) -> (out: Vec<Arc<SsTable>>)
    ensures
        in_order(out@, order),
        out@.to_multiset() == tables@.to_multiset(),
        out@.len() == tables@.len(),
        exists|from: Seq<int>| rearranged(tables@, out@, from),
        in_order(tables@, order) ==> out@ == tables@,
{
    let mut out: Vec<Arc<SsTable>> = Vec::with_capacity(tables.len());
    let mut i: usize = 0;
    let ghost from: Seq<int> = Seq::empty();
    assert(tables@.take(0) =~= Seq::empty());
    while i < tables.len()
        invariant
            i <= tables@.len(),
            in_order(out@, order),
            out@.to_multiset() == tables@.take(i as int).to_multiset(),
            out@.len() == i,
            rearranged(tables@, out@, from),
            forall|k: int| 0 <= k < from.len() ==> #[trigger] from[k] < i,
            in_order(tables@, order) ==> out@ == tables@.take(i as int),
        decreases tables@.len() - i,
    {
        let table = share(&tables[i]);
        let mut p: usize = 0;
        while p < out.len() && may_precede(&out[p], &table, order)
            invariant
                p <= out@.len(),
                forall|k: int| 0 <= k < p ==> precedes(*#[trigger] out@[k], *table, order),
            decreases out@.len() - p,
        {
            p += 1;
        }
        proof {
            let before = out@;
            let after = before.insert(p as int, table);
            lemma_insert_multiset(before, p as int, table);
            assert(tables@.take(i + 1) =~= tables@.take(i as int).push(table));
            assert forall|a: int, b: int| 0 <= a < b < after.len() implies precedes(
                *#[trigger] after[a],
                *#[trigger] after[b],
                order,
            ) by {
                if b == p {
                    assert(after[a] == before[a]);
                } else if a == p {
                    assert(after[b] == before[b - 1]);
                    lemma_precedes(*before[p as int], *table, *table, order);
                    lemma_precedes(*table, *before[p as int], *before[b - 1], order);
                } else {
                    let a0 = if a < p { a } else { a - 1 };
                    let b0 = if b < p { b } else { b - 1 };
                    assert(after[a] == before[a0]);
                    assert(after[b] == before[b0]);
                }
            }
        }
        proof {
            let before = from;
            from = before.insert(p as int, i as int);
            let grown = out@.insert(p as int, table);
            assert forall|k: int| 0 <= k < grown.len() implies 0 <= #[trigger] from[k]
                < tables@.len() && grown[k] == tables@[from[k]] by {
                if k < p {
                    assert(from[k] == before[k]);
                } else if k > p {
                    assert(from[k] == before[k - 1]);
                }
            }
            assert forall|a: int, b: int| 0 <= a < b < grown.len() implies #[trigger] from[a]
                != #[trigger] from[b] by {
                let a0 = if a < p { a } else { a - 1 };
                let b0 = if b < p { b } else { b - 1 };
                if a != p && b != p {
                    assert(from[a] == before[a0] && from[b] == before[b0]);
                } else if a == p {
                    assert(from[b] == before[b0]);
                } else {
                    assert(from[a] == before[a0]);
                }
            }
            assert forall|k: int| 0 <= k < from.len() implies #[trigger] from[k] < i + 1 by {
                if k < p {
                    assert(from[k] == before[k]);
                } else if k > p {
                    assert(from[k] == before[k - 1]);
                }
            }
        }
        proof {
            if in_order(tables@, order) {
                if p < out@.len() {
                    assert(out@[p as int] == tables@[p as int]);
                    assert(precedes(*tables@[p as int], *tables@[i as int], order));
                }
                assert(out@.insert(p as int, table) =~= tables@.take(i + 1));
            }
        }
        out.insert(p, table);
        i += 1;
    }
    assert(tables@.take(tables@.len() as int) =~= tables@);
    out
}

/// No two of the tables have one id.
pub open spec fn ids_distinct(tables: Seq<Arc<SsTable>>) -> bool {
    forall|i: int, j: int|
        0 <= i < j < tables.len() ==> (#[trigger] tables[i]).id() != (#[trigger] tables[j]).id()
}

/// Tables with distinct ids have distinct ids in whatever order they stand.
pub proof fn lemma_distinct_rearranged(a: Seq<Arc<SsTable>>, b: Seq<Arc<SsTable>>)
    requires
        ids_distinct(a),
        a.to_multiset() == b.to_multiset(),
    ensures
        ids_distinct(b),
{
    assert(a.no_duplicates()) by {
        assert forall|i: int, j: int| 0 <= i < a.len() && 0 <= j < a.len() && i != j implies a[i]
            != a[j] by {
            if i < j {
                assert(a[i].id() != a[j].id());
            } else {
                assert(a[j].id() != a[i].id());
            }
        }
    }
    a.lemma_multiset_has_no_duplicates();
    b.lemma_multiset_has_no_duplicates_conv();
    lemma_same_elements(a, b);
    assert forall|i: int, j: int| 0 <= i < j < b.len() implies (#[trigger] b[i]).id() != (
    #[trigger] b[j]).id() by {
        assert(b[i] != b[j]);
        assert(b.contains(b[i]) && b.contains(b[j]));
        assert(a.contains(b[i]) && a.contains(b[j]));
        let p = choose|p: int| 0 <= p < a.len() && a[p] == b[i];
        let q = choose|q: int| 0 <= q < a.len() && a[q] == b[j];
        if p < q {
            assert(a[p].id() != a[q].id());
        } else if q < p {
            assert(a[q].id() != a[p].id());
        }
    }
}

/// Where the first of the tables from number `from` on that has the id
/// stands; the number of the tables where none has it.
pub open spec fn place_of(pool: Seq<Arc<SsTable>>, id: u64, from: int) -> int
    decreases pool.len() - from,
{
    if from < 0 || from >= pool.len() {
        pool.len() as int
    } else if pool[from].id() == id {
        from
    } else {
        place_of(pool, id, from + 1)
    }
}

/// The tables `level` and behind them those of `pool`: first, for each of
/// the ids from number `from` on, in their order, the first table of the
/// pool that has the id and is not taken yet, then the tables that are
/// left, as they stand in the pool.
pub open spec fn created_order(
    pool: Seq<Arc<SsTable>>,
    ids: Seq<u64>,
    from: int,
    level: Seq<Arc<SsTable>>,
) -> Seq<Arc<SsTable>>
    decreases ids.len() - from,
{
    if from < 0 || from >= ids.len() {
        level + pool
    } else {
        let at = place_of(pool, ids[from], 0);
        if at < pool.len() {
            created_order(pool.remove(at), ids, from + 1, level.push(pool[at]))
        } else {
            created_order(pool, ids, from + 1, level)
        }
    }
}

/// The first table that has the id stands where no table before has it.
pub proof fn lemma_place_of(pool: Seq<Arc<SsTable>>, id: u64, from: int, at: int)
    requires
        0 <= from <= at <= pool.len(),
        forall|j: int| from <= j < at ==> (#[trigger] pool[j]).id() != id,
        at < pool.len() ==> pool[at].id() == id,
    ensures
        place_of(pool, id, from) == at,
    decreases at - from,
{
    if from < at {
        lemma_place_of(pool, id, from + 1, at);
    }
}

/// The tables of level 0 in the order in which the MANIFEST created them;
/// tables that the MANIFEST did not create at level 0 come last, as they
/// stand in the pool.
pub fn in_creation_order(pool: Vec<Arc<SsTable>>, l0_ids: &Vec<u64>) -> (level: Vec<Arc<SsTable>>)
    ensures
        level@ == created_order(pool@, l0_ids@, 0, Seq::empty()),
        level@.to_multiset() == pool@.to_multiset(),
{
    let ghost given = pool@;
    let mut pool = pool;
    let ghost all = pool@.to_multiset();
    let mut level: Vec<Arc<SsTable>> = Vec::with_capacity(pool.len());
    let mut i: usize = 0;
    assert(level@.to_multiset() =~= vstd::multiset::Multiset::empty());
    assert(level@ =~= Seq::empty());
    while i < l0_ids.len()
        invariant
            i <= l0_ids@.len(),
            level@.to_multiset().add(pool@.to_multiset()) == all,
            created_order(given, l0_ids@, 0, Seq::empty()) == created_order(
                pool@,
                l0_ids@,
                i as int,
                level@,
            ),
        decreases l0_ids@.len() - i,
    {
        let id = l0_ids[i];
        let mut k: usize = 0;
        while k < pool.len() && pool[k].id() != id
            invariant
                k <= pool@.len(),
                forall|j: int| 0 <= j < k ==> (#[trigger] pool@[j]).id() != id,
            decreases pool@.len() - k,
        {
            k += 1;
        }
        proof {
            lemma_place_of(pool@, id, 0, k as int);
        }
        if k < pool.len() {
            let ghost before_pool = pool@;
            let ghost before_level = level@;
            let table = pool.remove(k);
            level.push(table);
            proof {
                assert(before_pool.contains(table));
                assert(before_pool.to_multiset().count(table) > 0);
                assert(pool@.to_multiset() =~= before_pool.to_multiset().remove(table));
                assert(level@.to_multiset() =~= before_level.to_multiset().insert(table));
                assert(level@.to_multiset().add(pool@.to_multiset())
                    =~= before_level.to_multiset().add(before_pool.to_multiset()));
                assert(pool@ =~= before_pool.remove(k as int));
            }
        }
        i += 1;
    }
    let ghost target = level@ + pool@;
    while pool.len() > 0
        invariant
            level@.to_multiset().add(pool@.to_multiset()) == all,
            target == level@ + pool@,
        decreases pool@.len(),
    {
        let ghost before_pool = pool@;
        let ghost before_level = level@;
        let table = pool.remove(0);
        level.push(table);
        proof {
            assert(before_pool.contains(table));
            assert(before_pool.to_multiset().count(table) > 0);
            assert(pool@.to_multiset() =~= before_pool.to_multiset().remove(table));
            assert(level@.to_multiset() =~= before_level.to_multiset().insert(table));
            assert(level@.to_multiset().add(pool@.to_multiset()) =~= before_level.to_multiset().add(
                before_pool.to_multiset(),
            ));
            assert(level@ + pool@ =~= before_level + before_pool);
        }
    }
    assert(pool@.to_multiset() =~= vstd::multiset::Multiset::empty());
    assert(level@.to_multiset() =~= all);
    assert(level@ + pool@ =~= level@);
    level
}

/// No two of the tables have a key in common.
pub open spec fn pairwise_disjoint(tables: Seq<Arc<SsTable>>) -> bool {
    forall|i: int, j: int|
        0 <= i < j < tables.len() ==> crate::key::key_lt(
            (#[trigger] tables[i]).biggest(),
            (#[trigger] tables[j]).smallest(),
        ) || crate::key::key_lt(tables[j].biggest(), tables[i].smallest())
}

/// Every table stands before the next: its last key sorts before the
/// first key of the next.
pub open spec fn level_sorted(tables: Seq<Arc<SsTable>>) -> bool {
    forall|i: int, j: int|
        0 <= i < j < tables.len() ==> crate::key::key_lt(
            (#[trigger] tables[i]).biggest(),
            (#[trigger] tables[j]).smallest(),
        )
}

/// Tables without a key in common that stand in the order of their first
/// keys stand one before the other: a level of them is sorted and its
/// tables are disjoint.
pub proof fn lemma_level_sorted(tables: Seq<Arc<SsTable>>)
    requires
        in_order(tables, TableOrder::BySmallestKey),
        pairwise_disjoint(tables),
        forall|i: int|
            0 <= i < tables.len() ==> key_le((#[trigger] tables[i]).smallest(), tables[i].biggest()),
    ensures
        level_sorted(tables),
{
    assert forall|i: int, j: int| 0 <= i < j < tables.len() implies crate::key::key_lt(
        (#[trigger] tables[i]).biggest(),
        (#[trigger] tables[j]).smallest(),
    ) by {
        let a = tables[i];
        let b = tables[j];
        if crate::key::key_lt(b.biggest(), a.smallest()) {
            assert(precedes(*a, *b, TableOrder::BySmallestKey));
            assert(key_le(b.smallest(), b.biggest()));
            crate::key::lemma_key_le_lt(b.smallest(), b.biggest(), a.smallest());
            lemma_key_le_not_gt(a.smallest(), b.smallest());
        }
    }
}

/// Tables without a key in common have none in whatever order they stand.
pub proof fn lemma_disjoint_rearranged(a: Seq<Arc<SsTable>>, b: Seq<Arc<SsTable>>)
    requires
        pairwise_disjoint(a),
        ids_distinct(a),
        a.to_multiset() == b.to_multiset(),
    ensures
        pairwise_disjoint(b),
{
    lemma_distinct_rearranged(a, b);
    lemma_same_elements(a, b);
    assert forall|i: int, j: int| 0 <= i < j < b.len() implies crate::key::key_lt(
        (#[trigger] b[i]).biggest(),
        (#[trigger] b[j]).smallest(),
    ) || crate::key::key_lt(b[j].biggest(), b[i].smallest()) by {
        assert(b.contains(b[i]) && b.contains(b[j]));
        assert(a.contains(b[i]) && a.contains(b[j]));
        let p = choose|p: int| 0 <= p < a.len() && a[p] == b[i];
        let q = choose|q: int| 0 <= q < a.len() && a[q] == b[j];
        assert(b[i].id() != b[j].id());
        if p < q {
            assert(crate::key::key_lt(a[p].biggest(), a[q].smallest()) || crate::key::key_lt(
                a[q].biggest(),
                a[p].smallest(),
            ));
        } else {
            assert(crate::key::key_lt(a[q].biggest(), a[p].smallest()) || crate::key::key_lt(
                a[p].biggest(),
                a[q].smallest(),
            ));
        }
    }
}

/// Sequences of the same elements hold the same elements.
pub proof fn lemma_same_elements(a: Seq<Arc<SsTable>>, b: Seq<Arc<SsTable>>)
    requires
        a.to_multiset() == b.to_multiset(),
    ensures
        a.len() == b.len(),
        forall|x: Arc<SsTable>| a.contains(x) <==> b.contains(x),
{
    assert(a.len() == a.to_multiset().len());
    assert(b.len() == b.to_multiset().len());
    assert forall|x: Arc<SsTable>| a.contains(x) <==> b.contains(x) by {
        assert(a.contains(x) <==> a.to_multiset().count(x) > 0);
        assert(b.contains(x) <==> b.to_multiset().count(x) > 0);
    }
}

/// Where the id stands first among the ids from number `from` on; the
/// number of the ids where it is not among them.
pub open spec fn first_at(ids: Seq<u64>, id: u64, from: int) -> int
    decreases ids.len() - from,
{
    if from < 0 || from >= ids.len() {
        ids.len() as int
    } else if ids[from] == id {
        from
    } else {
        first_at(ids, id, from + 1)
    }
}

/// The tables stand in the order in which the ids name them first; tables
/// that the ids do not name come last.
pub open spec fn in_order_of(level: Seq<Arc<SsTable>>, ids: Seq<u64>) -> bool {
    forall|a: int, b: int|
        0 <= a < b < level.len() ==> first_at(ids, (#[trigger] level[a]).id(), 0) < first_at(
            ids,
            (#[trigger] level[b]).id(),
            0,
        ) || first_at(ids, level[b].id(), 0) == ids.len()
}

/// Where an id stands first: behind `from`, at the id, and before it the id
/// does not stand.
pub proof fn lemma_first_at(ids: Seq<u64>, id: u64, from: int)
    requires
        0 <= from <= ids.len(),
    ensures
        from <= first_at(ids, id, from) <= ids.len(),
        first_at(ids, id, from) < ids.len() ==> ids[first_at(ids, id, from)] == id,
        forall|k: int| from <= k < first_at(ids, id, from) ==> ids[k] != id,
    decreases ids.len() - from,
{
    if from < ids.len() && ids[from] != id {
        lemma_first_at(ids, id, from + 1);
    }
}

/// Where the first table with an id stands in the pool: at a table with the
/// id, and before it no table has the id.
pub proof fn lemma_place_found(pool: Seq<Arc<SsTable>>, id: u64, from: int)
    requires
        0 <= from <= pool.len(),
    ensures
        from <= place_of(pool, id, from) <= pool.len(),
        place_of(pool, id, from) < pool.len() ==> pool[place_of(pool, id, from)].id() == id,
        forall|k: int| from <= k < place_of(pool, id, from) ==> (#[trigger] pool[k]).id() != id,
    decreases pool.len() - from,
{
    if from < pool.len() && pool[from].id() != id {
        lemma_place_found(pool, id, from + 1);
    }
}

/// The order of creation is the order in which the ids name the tables
/// first, with the tables that they do not name behind.
pub proof fn lemma_created_order(
    pool: Seq<Arc<SsTable>>,
    ids: Seq<u64>,
    from: int,
    level: Seq<Arc<SsTable>>,
)
    requires
        0 <= from <= ids.len(),
        ids_distinct(pool),
        forall|a: int| 0 <= a < level.len() ==> first_at(ids, (#[trigger] level[a]).id(), 0) < from,
        forall|a: int, b: int|
            0 <= a < b < level.len() ==> first_at(ids, (#[trigger] level[a]).id(), 0) < first_at(
                ids,
                (#[trigger] level[b]).id(),
                0,
            ),
        forall|p: int| 0 <= p < pool.len() ==> first_at(ids, (#[trigger] pool[p]).id(), 0) >= from,
    ensures
        in_order_of(created_order(pool, ids, from, level), ids),
    decreases ids.len() - from,
{
    if from >= ids.len() {
        let all = level + pool;
        assert forall|a: int, b: int| 0 <= a < b < all.len() implies first_at(
            ids,
            (#[trigger] all[a]).id(),
            0,
        ) < first_at(ids, (#[trigger] all[b]).id(), 0) || first_at(ids, all[b].id(), 0)
            == ids.len() by {
            lemma_first_at(ids, all[b].id(), 0);
            if b < level.len() {
                assert(all[a] == level[a] && all[b] == level[b]);
            } else {
                assert(all[b] == pool[b - level.len()]);
            }
        }
    } else {
        let id = ids[from];
        let at = place_of(pool, id, 0);
        lemma_place_found(pool, id, 0);
        lemma_first_at(ids, id, 0);
        if at < pool.len() {
            let table = pool[at];
            let more = level.push(table);
            let less = pool.remove(at);
            lemma_first_at(ids, table.id(), 0);
            assert(first_at(ids, table.id(), 0) == from);
            assert forall|p: int, q: int| 0 <= p < q < less.len() implies (#[trigger] less[p]).id()
                != (#[trigger] less[q]).id() by {
                let p0 = if p < at { p } else { p + 1 };
                let q0 = if q < at { q } else { q + 1 };
                assert(less[p] == pool[p0] && less[q] == pool[q0]);
            }
            assert forall|p: int| 0 <= p < less.len() implies first_at(
                ids,
                (#[trigger] less[p]).id(),
                0,
            ) >= from + 1 by {
                let p0 = if p < at { p } else { p + 1 };
                assert(less[p] == pool[p0]);
                lemma_first_at(ids, pool[p0].id(), 0);
                if first_at(ids, pool[p0].id(), 0) == from {
                    if p0 < at {
                        assert(pool[p0].id() != pool[at].id());
                    } else {
                        assert(pool[at].id() != pool[p0].id());
                    }
                }
            }
            assert forall|a: int| 0 <= a < more.len() implies first_at(
                ids,
                (#[trigger] more[a]).id(),
                0,
            ) < from + 1 by {
                if a < level.len() {
                    assert(more[a] == level[a]);
                }
            }
            assert forall|a: int, b: int| 0 <= a < b < more.len() implies first_at(
                ids,
                (#[trigger] more[a]).id(),
                0,
            ) < first_at(ids, (#[trigger] more[b]).id(), 0) by {
                assert(more[a] == level[a]);
                if b < level.len() {
                    assert(more[b] == level[b]);
                }
            }
            lemma_created_order(less, ids, from + 1, more);
        } else {
            assert forall|p: int| 0 <= p < pool.len() implies first_at(
                ids,
                (#[trigger] pool[p]).id(),
                0,
            ) >= from + 1 by {
                lemma_first_at(ids, pool[p].id(), 0);
            }
            lemma_created_order(pool, ids, from + 1, level);
        }
    }
}

/// Tables of distinct ids that are put in the order of creation stand in
/// the order in which the ids name them first.
pub proof fn lemma_creation_order(pool: Seq<Arc<SsTable>>, ids: Seq<u64>)
    requires
        ids_distinct(pool),
    ensures
        in_order_of(created_order(pool, ids, 0, Seq::empty()), ids),
{
    assert forall|p: int| 0 <= p < pool.len() implies first_at(ids, (#[trigger] pool[p]).id(), 0)
        >= 0 by {
        lemma_first_at(ids, pool[p].id(), 0);
    }
    lemma_created_order(pool, ids, 0, Seq::empty());
}

} // verus!
