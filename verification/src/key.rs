//! The order on keys: byte strings compared lexicographically.

use vstd::prelude::*;

verus! {

/// `a` and `b` agree on their first `n` bytes.
pub open spec fn is_common_prefix(a: Seq<u8>, b: Seq<u8>, n: int) -> bool {
    &&& 0 <= n <= a.len()
    &&& n <= b.len()
    &&& forall|j: int| 0 <= j < n ==> a[j] == b[j]
}

/// `a` sorts before `b`, and position `n` is where this shows: the two agree
/// before `n`, and there `a` ends while `b` goes on, or `a` holds the smaller
/// byte.
pub open spec fn lt_at(a: Seq<u8>, b: Seq<u8>, n: int) -> bool {
    &&& is_common_prefix(a, b, n)
    &&& (n == a.len() && n < b.len()) || (n < a.len() && n < b.len() && a[n] < b[n])
}

/// Strict lexicographic order on byte strings.
pub open spec fn key_lt(a: Seq<u8>, b: Seq<u8>) -> bool {
    exists|n: int| #[trigger] lt_at(a, b, n)
}

/// Lexicographic order on byte strings.
pub open spec fn key_le(a: Seq<u8>, b: Seq<u8>) -> bool {
    a == b || key_lt(a, b)
}

/// No key sorts before itself.
pub proof fn lemma_key_lt_irreflexive(a: Seq<u8>)
    ensures
        !key_lt(a, a),
{
}

/// Of two keys at most one sorts before the other.
pub proof fn lemma_key_lt_asymmetric(a: Seq<u8>, b: Seq<u8>)
    ensures
        !(key_lt(a, b) && key_lt(b, a)),
{
    if key_lt(a, b) && key_lt(b, a) {
        let i = choose|n: int| #[trigger] lt_at(a, b, n);
        let j = choose|n: int| #[trigger] lt_at(b, a, n);
        if i < j {
            assert(b[i] == a[i]);
        } else if j < i {
            assert(a[j] == b[j]);
        }
    }
}

/// The order is transitive.
pub proof fn lemma_key_lt_transitive(a: Seq<u8>, b: Seq<u8>, c: Seq<u8>)
    requires
        key_lt(a, b),
        key_lt(b, c),
    ensures
        key_lt(a, c),
{
    let i = choose|n: int| #[trigger] lt_at(a, b, n);
    let j = choose|n: int| #[trigger] lt_at(b, c, n);
    if i <= j {
        assert(lt_at(a, c, i));
    } else {
        assert(a[j] == b[j]);
        assert(lt_at(a, c, j));
    }
}

/// Two keys that agree on their first `n` bytes are equal or one sorts
/// before the other.
proof fn lemma_key_trichotomy_from(a: Seq<u8>, b: Seq<u8>, n: int)
    requires
        is_common_prefix(a, b, n),
    ensures
        a == b || key_lt(a, b) || key_lt(b, a),
    decreases a.len() - n,
{
    if n == a.len() {
        if n == b.len() {
            assert(a =~= b);
        } else {
            assert(lt_at(a, b, n));
        }
    } else if n == b.len() {
        assert(lt_at(b, a, n));
    } else if a[n] < b[n] {
        assert(lt_at(a, b, n));
    } else if b[n] < a[n] {
        assert(lt_at(b, a, n));
    } else {
        lemma_key_trichotomy_from(a, b, n + 1);
    }
}

/// The order is total.
pub proof fn lemma_key_trichotomy(a: Seq<u8>, b: Seq<u8>)
    ensures
        a == b || key_lt(a, b) || key_lt(b, a),
{
    lemma_key_trichotomy_from(a, b, 0);
}

/// `key_le` is the negation of the reversed strict order.
pub proof fn lemma_key_le_not_gt(a: Seq<u8>, b: Seq<u8>)
    ensures
        key_le(a, b) <==> !key_lt(b, a),
{
    lemma_key_trichotomy(a, b);
    lemma_key_lt_asymmetric(a, b);
    lemma_key_lt_irreflexive(a);
}

/// `key_le` is transitive.
pub proof fn lemma_key_le_transitive(a: Seq<u8>, b: Seq<u8>, c: Seq<u8>)
    requires
        key_le(a, b),
        key_le(b, c),
    ensures
        key_le(a, c),
{
    if a != b && b != c {
        lemma_key_lt_transitive(a, b, c);
    }
}

/// A strict step after a weak one is strict.
pub proof fn lemma_key_le_lt(a: Seq<u8>, b: Seq<u8>, c: Seq<u8>)
    requires
        key_le(a, b),
        key_lt(b, c),
    ensures
        key_lt(a, c),
{
    if a != b {
        lemma_key_lt_transitive(a, b, c);
    }
}

/// A weak step after a strict one is strict.
pub proof fn lemma_key_lt_le(a: Seq<u8>, b: Seq<u8>, c: Seq<u8>)
    requires
        key_lt(a, b),
        key_le(b, c),
    ensures
        key_lt(a, c),
{
    if b != c {
        lemma_key_lt_transitive(a, b, c);
    }
}

/// The empty key sorts before every other key.
pub proof fn lemma_empty_key_least(a: Seq<u8>)
    ensures
        key_le(Seq::<u8>::empty(), a),
{
    if a.len() > 0 {
        assert(lt_at(Seq::<u8>::empty(), a, 0));
    } else {
        assert(a =~= Seq::<u8>::empty());
    }
}

/// How two keys stand to each other.
#[derive(Clone, Copy, Debug, PartialEq, Eq, Structural)]
pub enum KeyOrder {
    /// The first sorts before the second.
    Less,
    /// The two are the same key.
    Equal,
    /// The first sorts after the second.
    Greater,
}

/// Compares two keys lexicographically.
pub fn compare_keys(a: &[u8], b: &[u8]) -> (o: KeyOrder)
    ensures
        (o == KeyOrder::Less) == key_lt(a@, b@),
        (o == KeyOrder::Equal) == (a@ == b@),
        (o == KeyOrder::Greater) == key_lt(b@, a@),
{
    proof {
        lemma_key_lt_asymmetric(a@, b@);
        lemma_key_lt_irreflexive(a@);
    }
    let mut i: usize = 0;
    while i < a.len() && i < b.len()
        invariant
            is_common_prefix(a@, b@, i as int),
        decreases a.len() - i,
    {
        if a[i] < b[i] {
            assert(lt_at(a@, b@, i as int));
            return KeyOrder::Less;
        }
        if a[i] > b[i] {
            assert(lt_at(b@, a@, i as int));
            return KeyOrder::Greater;
        }
        i += 1;
    }
    if i < b.len() {
        assert(lt_at(a@, b@, i as int));
        KeyOrder::Less
    } else if i < a.len() {
        assert(lt_at(b@, a@, i as int));
        KeyOrder::Greater
    } else {
        assert(a@ =~= b@);
        KeyOrder::Equal
    }
}

/// Whether `a` sorts strictly before `b`.
pub fn key_less(a: &[u8], b: &[u8]) -> (r: bool)
    ensures
        r == key_lt(a@, b@),
{
    compare_keys(a, b) == KeyOrder::Less
}

/// Whether `a` sorts before `b` or equals it.
pub fn key_less_eq(a: &[u8], b: &[u8]) -> (r: bool)
    ensures
        r == key_le(a@, b@),
{
    compare_keys(a, b) != KeyOrder::Greater
}

/// Whether the two keys are the same byte string.
pub fn key_equal(a: &[u8], b: &[u8]) -> (r: bool)
    ensures
        r == (a@ == b@),
{
    compare_keys(a, b) == KeyOrder::Equal
}

/// A copy of a byte string.
pub fn copy_bytes(src: &[u8]) -> (out: Vec<u8>)
    ensures
        out@ == src@,
{
    let mut out: Vec<u8> = Vec::with_capacity(src.len());
    let mut i: usize = 0;
    while i < src.len()
        invariant
            i <= src.len(),
            out@ == src@.subrange(0, i as int),
        decreases src.len() - i,
    {
        out.push(src[i]);
        i += 1;
    }
    assert(src@.subrange(0, src.len() as int) =~= src@);
    out
}

} // verus!

verus! {

/// The keys of the entries grow strictly from each entry to the next.
pub open spec fn entries_sorted(e: Seq<(Seq<u8>, Seq<u8>)>) -> bool {
    forall|i: int, j: int| 0 <= i < j < e.len() ==> key_lt(#[trigger] e[i].0, #[trigger] e[j].0)
}

/// Position `i` parts the entries into those with a key below `key` and
/// those with a key at or above it.
pub open spec fn is_lower_bound(e: Seq<(Seq<u8>, Seq<u8>)>, key: Seq<u8>, i: int) -> bool {
    &&& 0 <= i <= e.len()
    &&& forall|j: int| 0 <= j < i ==> key_lt(#[trigger] e[j].0, key)
    &&& forall|j: int| i <= j < e.len() ==> key_le(key, #[trigger] e[j].0)
}

/// At most one position parts the entries at a key.
pub proof fn lemma_lower_bound_unique(e: Seq<(Seq<u8>, Seq<u8>)>, key: Seq<u8>, i: int, j: int)
    requires
        is_lower_bound(e, key, i),
        is_lower_bound(e, key, j),
    ensures
        i == j,
{
    if i < j {
        lemma_key_le_not_gt(key, e[i].0);
    } else if j < i {
        lemma_key_le_not_gt(key, e[j].0);
    }
}

} // verus!

verus! {

/// `rest` is what is left of the entries `e` from the first entry on whose
/// key is `key` or sorts after it.
pub open spec fn seeked(
    e: Seq<(Seq<u8>, Seq<u8>)>,
    key: Seq<u8>,
    rest: Seq<(Seq<u8>, Seq<u8>)>,
) -> bool {
    &&& rest.len() <= e.len()
    &&& is_lower_bound(e, key, e.len() - rest.len())
    &&& rest == e.skip(e.len() - rest.len())
}

/// What is left of a sequence of entries behind its first; nothing where
/// there is none.
pub open spec fn rest_of(s: Seq<(Seq<u8>, Seq<u8>)>) -> Seq<(Seq<u8>, Seq<u8>)> {
    if s.len() > 0 {
        s.skip(1)
    } else {
        s
    }
}

} // verus!

verus! {

/// What a point lookup finds where a seek for `key` has left `rest`: the
/// value of the first entry of `rest` where that has the key.
pub open spec fn hit(rest: Seq<(Seq<u8>, Seq<u8>)>, key: Seq<u8>) -> Option<Seq<u8>> {
    if rest.len() > 0 && rest[0].0 == key {
        Some(rest[0].1)
    } else {
        None
    }
}

/// Some entry has the key.
pub open spec fn has_key(e: Seq<(Seq<u8>, Seq<u8>)>, key: Seq<u8>) -> bool {
    exists|i: int| 0 <= i < e.len() && (#[trigger] e[i]).0 == key
}

/// The value that the entries have for the key.
pub open spec fn value_in(e: Seq<(Seq<u8>, Seq<u8>)>, key: Seq<u8>) -> Option<Seq<u8>> {
    if has_key(e, key) {
        Some(e[choose|i: int| 0 <= i < e.len() && (#[trigger] e[i]).0 == key].1)
    } else {
        None
    }
}

/// In sorted entries a seek for a key finds the value that the entries have
/// for it.
pub proof fn lemma_seek_hit(e: Seq<(Seq<u8>, Seq<u8>)>, key: Seq<u8>, rest: Seq<(Seq<u8>, Seq<u8>)>)
    requires
        entries_sorted(e),
        seeked(e, key, rest),
    ensures
        value_in(e, key) == hit(rest, key),
        rest.len() > 0 ==> key_le(key, rest[0].0),
{
    let pos = e.len() - rest.len();
    if rest.len() > 0 {
        assert(rest[0] == e[pos]);
    }
    if has_key(e, key) {
        let i = choose|i: int| 0 <= i < e.len() && (#[trigger] e[i]).0 == key;
        lemma_key_lt_irreflexive(key);
        if i < pos {
            assert(key_lt(e[i].0, key));
        } else {
            assert(key_le(key, e[pos].0));
            if i > pos {
                assert(key_lt(e[pos].0, e[i].0));
                lemma_key_le_lt(key, e[pos].0, e[i].0);
            }
        }
        assert(i == pos);
    } else {
        if rest.len() > 0 && rest[0].0 == key {
            assert(e[pos].0 == key);
        }
    }
}

/// In sorted entries the value for a key is that of the entry that has the
/// key.
pub proof fn lemma_value_at(e: Seq<(Seq<u8>, Seq<u8>)>, key: Seq<u8>, i: int)
    requires
        entries_sorted(e),
        0 <= i < e.len(),
        e[i].0 == key,
    ensures
        value_in(e, key) == Some(e[i].1),
{
    assert(has_key(e, key));
    let c = choose|c: int| 0 <= c < e.len() && (#[trigger] e[c]).0 == key;
    lemma_key_lt_irreflexive(key);
    if c < i {
        assert(key_lt(e[c].0, e[i].0));
    } else if i < c {
        assert(key_lt(e[i].0, e[c].0));
    }
}

/// Sorted entries whose first key is not the key have for the key what the
/// entries behind the first have for it.
pub proof fn lemma_value_behind(e: Seq<(Seq<u8>, Seq<u8>)>, key: Seq<u8>)
    requires
        entries_sorted(e),
        e.len() > 0,
        e[0].0 != key,
    ensures
        value_in(e.skip(1), key) == value_in(e, key),
{
    let rest = e.skip(1);
    lemma_sorted_skip(e, 1);
    if has_key(rest, key) {
        let i = choose|i: int| 0 <= i < rest.len() && (#[trigger] rest[i]).0 == key;
        assert(e[i + 1] == rest[i]);
        lemma_value_at(rest, key, i);
        lemma_value_at(e, key, i + 1);
    } else if has_key(e, key) {
        let i = choose|i: int| 0 <= i < e.len() && (#[trigger] e[i]).0 == key;
        assert(rest[i - 1] == e[i]);
    }
}

/// The suffixes of sorted entries are sorted.
pub proof fn lemma_sorted_skip(e: Seq<(Seq<u8>, Seq<u8>)>, n: int)
    requires
        entries_sorted(e),
        0 <= n <= e.len(),
    ensures
        entries_sorted(e.skip(n)),
{
    let s = e.skip(n);
    assert forall|i: int, j: int| 0 <= i < j < s.len() implies key_lt(
        #[trigger] s[i].0,
        #[trigger] s[j].0,
    ) by {
        assert(key_lt(e[i + n].0, e[j + n].0));
    }
}

} // verus!

verus! {

/// The entries from the first on whose key is `key` or sorts after it.
pub open spec fn from_key(e: Seq<(Seq<u8>, Seq<u8>)>, key: Seq<u8>) -> Seq<(Seq<u8>, Seq<u8>)>
    decreases e.len(),
{
    if e.len() == 0 {
        e
    } else if key_lt(e[0].0, key) {
        from_key(e.skip(1), key)
    } else {
        e
    }
}

/// In sorted entries a seek for a key leaves the entries from that key on.
pub proof fn lemma_seeked_from_key(
    e: Seq<(Seq<u8>, Seq<u8>)>,
    key: Seq<u8>,
    rest: Seq<(Seq<u8>, Seq<u8>)>,
)
    requires
        seeked(e, key, rest),
    ensures
        rest == from_key(e, key),
    decreases e.len(),
{
    let pos = e.len() - rest.len();
    if e.len() > 0 {
        if pos == 0 {
            assert(key_le(key, e[0].0));
            lemma_key_le_not_gt(key, e[0].0);
            assert(rest =~= e);
        } else {
            assert(key_lt(e[0].0, key));
            let tail = e.skip(1);
            assert forall|j: int| 0 <= j < pos - 1 implies key_lt(#[trigger] tail[j].0, key) by {
                assert(tail[j] == e[j + 1]);
            }
            assert forall|j: int| pos - 1 <= j < tail.len() implies key_le(
                key,
                #[trigger] tail[j].0,
            ) by {
                assert(tail[j] == e[j + 1]);
            }
            assert(rest =~= tail.skip(tail.len() - rest.len()));
            lemma_seeked_from_key(tail, key, rest);
        }
    } else {
        assert(rest =~= e);
    }
}

/// The entries before the first whose key lies above the bound.
pub open spec fn within(s: Seq<(Seq<u8>, Seq<u8>)>, end: std::ops::Bound<Seq<u8>>) -> Seq<
    (Seq<u8>, Seq<u8>),
>
    decreases s.len(),
{
    if s.len() == 0 || !below_upper(end, s[0].0) {
        Seq::empty()
    } else {
        seq![s[0]] + within(s.skip(1), end)
    }
}

/// The key is not below the lower bound.
pub open spec fn above_lower(lower: std::ops::Bound<Seq<u8>>, key: Seq<u8>) -> bool {
    match lower {
        std::ops::Bound::Included(bound) => key_le(bound, key),
        std::ops::Bound::Excluded(bound) => key_lt(bound, key),
        std::ops::Bound::Unbounded => true,
    }
}

/// The key is not above the upper bound.
pub open spec fn below_upper(upper: std::ops::Bound<Seq<u8>>, key: Seq<u8>) -> bool {
    match upper {
        std::ops::Bound::Included(bound) => key_le(key, bound),
        std::ops::Bound::Excluded(bound) => key_lt(key, bound),
        std::ops::Bound::Unbounded => true,
    }
}

/// Where the first `n` entries lie under the bound and the next does not,
/// or there is no next, the entries under the bound are the first `n`.
pub proof fn lemma_within_take(s: Seq<(Seq<u8>, Seq<u8>)>, end: std::ops::Bound<Seq<u8>>, n: int)
    requires
        0 <= n <= s.len(),
        forall|i: int| 0 <= i < n ==> below_upper(end, #[trigger] s[i].0),
        n < s.len() ==> !below_upper(end, s[n].0),
    ensures
        within(s, end) == s.take(n),
    decreases n,
{
    if n == 0 {
        assert(s.take(0) =~= Seq::empty());
    } else {
        let tail = s.skip(1);
        assert forall|i: int| 0 <= i < n - 1 implies below_upper(end, #[trigger] tail[i].0) by {
            assert(tail[i] == s[i + 1]);
        }
        if n - 1 < tail.len() {
            assert(tail[n - 1] == s[n]);
        }
        lemma_within_take(tail, end, n - 1);
        assert(below_upper(end, s[0].0));
        assert(s.take(n) =~= seq![s[0]] + tail.take(n - 1));
    }
}

} // verus!

verus! {

/// The key of a bound that is one.
pub open spec fn end_key(end: std::ops::Bound<Seq<u8>>) -> Seq<u8> {
    match end {
        std::ops::Bound::Included(key) => key,
        std::ops::Bound::Excluded(key) => key,
        std::ops::Bound::Unbounded => Seq::empty(),
    }
}

/// What sorted entries have from a key on is sorted.
pub proof fn lemma_from_key_sorted(e: Seq<(Seq<u8>, Seq<u8>)>, key: Seq<u8>)
    requires
        entries_sorted(e),
    ensures
        entries_sorted(from_key(e, key)),
    decreases e.len(),
{
    if e.len() > 0 && key_lt(e[0].0, key) {
        lemma_sorted_skip(e, 1);
        lemma_from_key_sorted(e.skip(1), key);
    }
}

/// The entries from a key on start with a key that does not sort before
/// it.
pub proof fn lemma_from_key_head(e: Seq<(Seq<u8>, Seq<u8>)>, key: Seq<u8>)
    ensures
        from_key(e, key).len() > 0 ==> !key_lt(from_key(e, key)[0].0, key),
        within(from_key(e, key), std::ops::Bound::Excluded(key)).len() == 0,
    decreases e.len(),
{
    if e.len() > 0 && key_lt(e[0].0, key) {
        lemma_from_key_head(e.skip(1), key);
    }
}

/// To go on to a key and then on to a later one is to go on to the later
/// one.
pub proof fn lemma_from_key_twice(e: Seq<(Seq<u8>, Seq<u8>)>, a: Seq<u8>, b: Seq<u8>)
    requires
        key_le(a, b),
    ensures
        from_key(from_key(e, a), b) == from_key(e, b),
    decreases e.len(),
{
    if e.len() > 0 && key_lt(e[0].0, a) {
        lemma_key_lt_le(e[0].0, a, b);
        lemma_from_key_twice(e.skip(1), a, b);
    }
}

/// Sorted entries up to a bound are those below a key under the bound,
/// and then those from that key on up to the bound.
pub proof fn lemma_within_parts(
    s: Seq<(Seq<u8>, Seq<u8>)>,
    b: Seq<u8>,
    end: std::ops::Bound<Seq<u8>>,
)
    requires
        !(end is Unbounded) ==> key_le(b, end_key(end)),
    ensures
        within(s, std::ops::Bound::Excluded(b)) + within(from_key(s, b), end) == within(s, end),
    decreases s.len(),
{
    let low = std::ops::Bound::Excluded(b);
    if s.len() > 0 && key_lt(s[0].0, b) {
        let tail = s.skip(1);
        lemma_within_parts(tail, b, end);
        assert(below_upper(end, s[0].0)) by {
            match end {
                std::ops::Bound::Included(c) => {
                    lemma_key_lt_le(s[0].0, b, c);
                },
                std::ops::Bound::Excluded(c) => {
                    lemma_key_lt_le(s[0].0, b, c);
                },
                std::ops::Bound::Unbounded => {},
            }
        }
        assert((seq![s[0]] + within(tail, low)) + within(from_key(tail, b), end) =~= seq![s[0]] + (
        within(tail, low) + within(from_key(tail, b), end)));
    } else {
        assert(within(s, low) + within(from_key(s, b), end) =~= within(s, end));
    }
}

/// Sorted entries have for a key between a key and a bound what those of
/// them between that key and the bound have for it.
pub proof fn lemma_span_value(
    m: Seq<(Seq<u8>, Seq<u8>)>,
    lower: Seq<u8>,
    upper: Seq<u8>,
    key: Seq<u8>,
)
    requires
        entries_sorted(m),
        key_le(lower, key),
        key_le(key, upper),
    ensures
        value_in(within(from_key(m, lower), std::ops::Bound::Included(upper)), key) == value_in(
            m,
            key,
        ),
    decreases m.len(),
{
    let end = std::ops::Bound::Included(upper);
    if m.len() > 0 {
        let tail = m.skip(1);
        lemma_sorted_skip(m, 1);
        if key_lt(m[0].0, lower) {
            lemma_key_lt_le(m[0].0, lower, key);
            lemma_key_lt_irreflexive(key);
            lemma_span_value(tail, lower, upper, key);
            lemma_value_behind(m, key);
        } else {
            lemma_span_here(m, upper, key);
        }
    }
}

/// Sorted entries have for a key under a bound what those of them under
/// the bound have for it.
pub proof fn lemma_span_here(m: Seq<(Seq<u8>, Seq<u8>)>, upper: Seq<u8>, key: Seq<u8>)
    requires
        entries_sorted(m),
        key_le(key, upper),
    ensures
        value_in(within(m, std::ops::Bound::Included(upper)), key) == value_in(m, key),
        entries_sorted(within(m, std::ops::Bound::Included(upper))),
    decreases m.len(),
{
    let end = std::ops::Bound::Included(upper);
    let w = within(m, end);
    lemma_within_prefix(m, end);
    let n = w.len() as int;
    assert(w == m.take(n));
    assert forall|i: int, j: int| 0 <= i < j < w.len() implies key_lt(
        #[trigger] w[i].0,
        #[trigger] w[j].0,
    ) by {
        assert(key_lt(m[i].0, m[j].0));
    }
    if has_key(m, key) {
        let i = choose|i: int| 0 <= i < m.len() && (#[trigger] m[i]).0 == key;
        lemma_value_at(m, key, i);
        if i >= n {
            assert(!below_upper(end, m[n].0));
            lemma_key_trichotomy(upper, m[n].0);
            lemma_key_le_lt(key, upper, m[n].0);
            lemma_key_lt_irreflexive(key);
            if i > n {
                assert(key_lt(m[n].0, m[i].0));
                lemma_key_lt_asymmetric(m[n].0, key);
            }
        }
        assert(w[i] == m[i]);
        lemma_value_at(w, key, i);
    } else if has_key(w, key) {
        let i = choose|i: int| 0 <= i < w.len() && (#[trigger] w[i]).0 == key;
        assert(m[i] == w[i]);
    }
}

/// The entries under a bound are the first of the entries, and the next
/// entry, if there is one, lies above the bound.
pub proof fn lemma_within_prefix(s: Seq<(Seq<u8>, Seq<u8>)>, end: std::ops::Bound<Seq<u8>>)
    ensures
        within(s, end).len() <= s.len(),
        within(s, end) == s.take(within(s, end).len() as int),
        within(s, end).len() < s.len() ==> !below_upper(end, s[within(s, end).len() as int].0),
    decreases s.len(),
{
    if s.len() == 0 || !below_upper(end, s[0].0) {
        assert(within(s, end) =~= s.take(0));
    } else {
        let tail = s.skip(1);
        lemma_within_prefix(tail, end);
        let n = within(tail, end).len() as int;
        assert(within(s, end) =~= s.take(n + 1));
        if n < tail.len() {
            assert(tail[n] == s[n + 1]);
        }
    }
}

/// Sorted entries that are made of two parts have for a key what the first
/// part has for it, and what the second has where the first does not have
/// the key.
pub proof fn lemma_value_in_parts(
    a: Seq<(Seq<u8>, Seq<u8>)>,
    b: Seq<(Seq<u8>, Seq<u8>)>,
    key: Seq<u8>,
)
    requires
        entries_sorted(a + b),
    ensures
        value_in(a + b, key) == match value_in(a, key) {
            Some(value) => Some(value),
            None => value_in(b, key),
        },
{
    let all = a + b;
    assert forall|i: int, j: int| 0 <= i < j < a.len() implies key_lt(
        #[trigger] a[i].0,
        #[trigger] a[j].0,
    ) by {
        assert(key_lt(all[i].0, all[j].0));
    }
    assert forall|i: int, j: int| 0 <= i < j < b.len() implies key_lt(
        #[trigger] b[i].0,
        #[trigger] b[j].0,
    ) by {
        assert(key_lt(all[a.len() + i].0, all[a.len() + j].0));
    }
    if has_key(a, key) {
        let i = choose|i: int| 0 <= i < a.len() && (#[trigger] a[i]).0 == key;
        assert(all[i] == a[i]);
        lemma_value_at(a, key, i);
        lemma_value_at(all, key, i);
    } else if has_key(b, key) {
        let i = choose|i: int| 0 <= i < b.len() && (#[trigger] b[i]).0 == key;
        assert(all[a.len() + i] == b[i]);
        lemma_value_at(b, key, i);
        lemma_value_at(all, key, a.len() + i);
    } else if has_key(all, key) {
        let i = choose|i: int| 0 <= i < all.len() && (#[trigger] all[i]).0 == key;
        if i < a.len() {
            assert(a[i] == all[i]);
        } else {
            assert(b[i - a.len()] == all[i]);
        }
    }
}

/// The entries from a key on are the last of the entries.
pub proof fn lemma_from_key_suffix(e: Seq<(Seq<u8>, Seq<u8>)>, key: Seq<u8>)
    ensures
        from_key(e, key).len() <= e.len(),
        from_key(e, key) == e.skip(e.len() - from_key(e, key).len()),
    decreases e.len(),
{
    if e.len() > 0 && key_lt(e[0].0, key) {
        let tail = e.skip(1);
        lemma_from_key_suffix(tail, key);
        let n = from_key(tail, key).len();
        assert(tail.skip(tail.len() - n) =~= e.skip(e.len() - n));
    } else {
        assert(e.skip(0) =~= e);
    }
}

/// A key that the entries between a key and a bound have is a key of the
/// entries.
pub proof fn lemma_span_members(
    m: Seq<(Seq<u8>, Seq<u8>)>,
    lower: Seq<u8>,
    end: std::ops::Bound<Seq<u8>>,
    key: Seq<u8>,
)
    requires
        has_key(within(from_key(m, lower), end), key),
    ensures
        has_key(m, key),
{
    let from = from_key(m, lower);
    let span = within(from, end);
    lemma_from_key_suffix(m, lower);
    lemma_within_prefix(from, end);
    let i = choose|i: int| 0 <= i < span.len() && (#[trigger] span[i]).0 == key;
    let at = m.len() - from.len() + i;
    assert(span[i] == from[i]);
    assert(from[i] == m[at]);
    assert(m[at].0 == key);
}

/// Sorted entries that hold the same entries are the same.
pub proof fn lemma_sorted_same(a: Seq<(Seq<u8>, Seq<u8>)>, b: Seq<(Seq<u8>, Seq<u8>)>)
    requires
        entries_sorted(a),
        entries_sorted(b),
        forall|i: int| 0 <= i < a.len() ==> b.contains(#[trigger] a[i]),
        forall|j: int| 0 <= j < b.len() ==> a.contains(#[trigger] b[j]),
    ensures
        a == b,
    decreases a.len(),
{
    if a.len() == 0 {
        if b.len() > 0 {
            assert(a.contains(b[0]));
        }
        assert(a =~= b);
    } else {
        assert(b.contains(a[0]));
        let j = choose|j: int| 0 <= j < b.len() && b[j] == a[0];
        assert(a.contains(b[0]));
        let i = choose|i: int| 0 <= i < a.len() && a[i] == b[0];
        lemma_key_lt_irreflexive(a[0].0);
        if j > 0 {
            assert(key_lt(b[0].0, b[j].0));
            if i > 0 {
                assert(key_lt(a[0].0, a[i].0));
                lemma_key_lt_asymmetric(a[0].0, b[0].0);
            }
        }
        assert(a[0] == b[0]);
        let ta = a.skip(1);
        let tb = b.skip(1);
        lemma_sorted_skip(a, 1);
        lemma_sorted_skip(b, 1);
        assert forall|x: int| 0 <= x < ta.len() implies tb.contains(#[trigger] ta[x]) by {
            assert(ta[x] == a[x + 1]);
            assert(b.contains(a[x + 1]));
            let y = choose|y: int| 0 <= y < b.len() && b[y] == a[x + 1];
            assert(key_lt(a[0].0, a[x + 1].0));
            assert(y > 0);
            assert(tb[y - 1] == b[y]);
        }
        assert forall|y: int| 0 <= y < tb.len() implies ta.contains(#[trigger] tb[y]) by {
            assert(tb[y] == b[y + 1]);
            assert(a.contains(b[y + 1]));
            let x = choose|x: int| 0 <= x < a.len() && a[x] == b[y + 1];
            assert(key_lt(b[0].0, b[y + 1].0));
            assert(x > 0);
            assert(ta[x - 1] == a[x]);
        }
        lemma_sorted_same(ta, tb);
        assert(a =~= seq![a[0]] + ta);
        assert(b =~= seq![b[0]] + tb);
    }
}

/// Sorted or not, the entries below a key and the entries from that key on
/// are as many as the entries.
pub proof fn lemma_parts_len(s: Seq<(Seq<u8>, Seq<u8>)>, b: Seq<u8>)
    ensures
        within(s, std::ops::Bound::Excluded(b)).len() + from_key(s, b).len() == s.len(),
    decreases s.len(),
{
    if s.len() > 0 && key_lt(s[0].0, b) {
        lemma_parts_len(s.skip(1), b);
    }
}

/// Every entry under a bound has a key that is not above the bound.
pub proof fn lemma_within_all(s: Seq<(Seq<u8>, Seq<u8>)>, end: std::ops::Bound<Seq<u8>>)
    ensures
        within(s, end).len() <= s.len(),
        forall|i: int| 0 <= i < within(s, end).len() ==> below_upper(end, (#[trigger] s[i]).0),
    decreases s.len(),
{
    if s.len() > 0 && below_upper(end, s[0].0) {
        let tail = s.skip(1);
        lemma_within_all(tail, end);
        assert forall|i: int| 0 <= i < within(s, end).len() implies below_upper(
            end,
            (#[trigger] s[i]).0,
        ) by {
            if i > 0 {
                assert(tail[i - 1] == s[i]);
            }
        }
    }
}

} // verus!
