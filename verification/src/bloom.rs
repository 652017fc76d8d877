//! A bloom filter over 64-bit hashes of keys.
//!
//! The filter is stored as its bits, eight to a byte, followed by one byte
//! that holds the number of probes. A hash `h` is probed at the bits
//! `h, h + d, h + 2d, ...` modulo the number of bits, where `d` is `h`
//! rotated.

use vstd::prelude::*;

verus! {

/// Whether bit `offset` of `byte` is set.
pub open spec fn bit_of(byte: u8, offset: u8) -> bool {
    byte & (1u8 << offset) > 0
}

/// `byte` with bit `offset` set.
pub open spec fn with_bit(byte: u8, offset: u8) -> u8 {
    byte | (1u8 << offset)
}

/// `byte` with bit `offset` cleared.
pub open spec fn without_bit(byte: u8, offset: u8) -> u8 {
    byte & !(1u8 << offset)
}

/// Whether bit `idx` of the byte string is set: bit `idx % 8` of byte
/// `idx / 8`.
pub open spec fn bit_at(bytes: Seq<u8>, idx: int) -> bool {
    bit_of(bytes[idx / 8], (idx % 8) as u8)
}

/// Setting a bit sets it and leaves the other bits of the byte alone.
pub proof fn lemma_with_bit(byte: u8, offset: u8, other: u8)
    requires
        offset < 8,
        other < 8,
    ensures
        bit_of(with_bit(byte, offset), offset),
        other != offset ==> bit_of(with_bit(byte, offset), other) == bit_of(byte, other),
        bit_of(byte, other) ==> bit_of(with_bit(byte, offset), other),
{
    assert(offset < 8 ==> (byte | (1u8 << offset)) & (1u8 << offset) > 0) by (bit_vector);
    assert(offset < 8 && other < 8 && other != offset ==> (((byte | (1u8 << offset)) & (1u8
        << other) > 0) == (byte & (1u8 << other) > 0))) by (bit_vector);
}

/// Clearing a bit clears it and leaves the other bits of the byte alone.
pub proof fn lemma_without_bit(byte: u8, offset: u8, other: u8)
    requires
        offset < 8,
        other < 8,
    ensures
        !bit_of(without_bit(byte, offset), offset),
        other != offset ==> bit_of(without_bit(byte, offset), other) == bit_of(byte, other),
{
    assert(offset < 8 ==> !((byte & !(1u8 << offset)) & (1u8 << offset) > 0)) by (bit_vector);
    assert(offset < 8 && other < 8 && other != offset ==> (((byte & !(1u8 << offset)) & (1u8
        << other) > 0) == (byte & (1u8 << other) > 0))) by (bit_vector);
}

/// No bit of a zero byte is set.
pub proof fn lemma_zero_byte(offset: u8)
    requires
        offset < 8,
    ensures
        !bit_of(0u8, offset),
{
    assert(offset < 8 ==> !(0u8 & (1u8 << offset) > 0)) by (bit_vector);
}

/// Bytes whose bits can be written one by one.
pub trait BitSliceMut: BitSlice {
    /// Sets bit `idx` to `val` and leaves every other bit as it was.
    fn bit_set(&mut self, idx: usize, val: bool)
        requires
            idx < old(self).bits().len() * 8,
        ensures
            final(self).bits().len() == old(self).bits().len(),
            bit_at(final(self).bits(), idx as int) == val,
            forall|other: int|
                0 <= other < old(self).bits().len() * 8 && other != idx ==> bit_at(
                    final(self).bits(),
                    other,
                ) == bit_at(old(self).bits(), other),
    ;
}

/// Bytes whose bits can be read one by one.
pub trait BitSlice {
    /// The bytes that hold the bits.
    spec fn bits(&self) -> Seq<u8>;

    /// Whether bit `idx` is set.
    fn bit_get(&self, idx: usize) -> (bit: bool)
        requires
            idx < self.bits().len() * 8,
        ensures
            bit == bit_at(self.bits(), idx as int),
    ;

    /// The number of bits.
    fn bit_len(&self) -> (n: usize)
        requires
            self.bits().len() * 8 <= usize::MAX,
        ensures
            n == self.bits().len() * 8,
    ;
}

impl BitSliceMut for Vec<u8> {
    fn bit_set(&mut self, idx: usize, val: bool) {
        let pos = idx / 8;
        let offset = (idx % 8) as u8;
        let byte = self[pos];
        let changed = if val {
            byte | (1u8 << offset)
        } else {
            byte & !(1u8 << offset)
        };
        self.set(pos, changed);
        proof {
            assert forall|other: int|
                0 <= other < old(self).bits().len() * 8 && other != idx implies bit_at(
                self.bits(),
                other,
            ) == bit_at(old(self).bits(), other) by {
                if other / 8 == pos as int {
                    lemma_with_bit(byte, offset, (other % 8) as u8);
                    lemma_without_bit(byte, offset, (other % 8) as u8);
                }
            }
            lemma_with_bit(byte, offset, offset);
            lemma_without_bit(byte, offset, offset);
        }
    }
}

impl BitSlice for Vec<u8> {
    open spec fn bits(&self) -> Seq<u8> {
        self@
    }

    fn bit_get(&self, idx: usize) -> (bit: bool) {
        let pos = idx / 8;
        let offset = (idx % 8) as u8;
        (self[pos] & (1u8 << offset)) > 0
    }

    fn bit_len(&self) -> (n: usize) {
        self.len() * 8
    }
}

/// The step between the probes of a hash: the hash rotated by 34 bits.
pub open spec fn delta_of(h: u64) -> u64 {
    (h >> 34) | (h << 30)
}

/// The hash as it stands before probe number `j`.
pub open spec fn probe_hash(h: u64, j: nat) -> u64
    decreases j,
{
    if j == 0 {
        h
    } else {
        vstd::wrapping::u64_specs::wrapping_add(probe_hash(h, (j - 1) as nat), delta_of(h))
    }
}

/// The bit that probe number `j` of the hash `h` looks at, among `limit`
/// bits.
pub open spec fn probe_bit(h: u64, j: nat, limit: int) -> int {
    probe_hash(h, j) as int % limit
}

/// The number of bits of a stored filter: eight for each byte but the last.
pub open spec fn limit_of(filter: Seq<u8>) -> int {
    (filter.len() - 1) * 8
}

/// The number of probes of a stored filter: its last byte.
pub open spec fn probes_of(filter: Seq<u8>) -> nat {
    filter.last() as nat
}

/// Whether the stored filter may hold the hash: it has bits, and every one
/// of its probes of the hash finds its bit set.
pub open spec fn filter_may_contain(filter: Seq<u8>, h: u64) -> bool {
    &&& filter.len() > 1
    &&& forall|j: nat|
        j < probes_of(filter) ==> bit_at(filter, #[trigger] probe_bit(h, j, limit_of(filter)))
}

/// One of the first `upto` probes of the hash `h` looks at the bit.
pub open spec fn probed_by(h: u64, upto: nat, limit: int, bit: int) -> bool {
    exists|q: nat| q < upto && #[trigger] probe_bit(h, q, limit) == bit
}

/// One of the `k` probes of one of the first `upto` hashes looks at the
/// bit.
pub open spec fn probed(keys: Seq<u64>, upto: int, k: nat, limit: int, bit: int) -> bool {
    exists|i: int| 0 <= i < upto && #[trigger] probed_by(keys[i], k, limit, bit)
}

/// The probes that a filter is built with: what was asked for, but one at
/// least and fifteen at most.
pub open spec fn clamped_probes(k: u8) -> u8 {
    if k < 1 {
        1
    } else if k > 15 {
        15
    } else {
        k
    }
}

/// A filter over the hashes of a set of keys.
#[derive(Debug)]
pub struct Bloom {
    /// The bits of the filter; the last byte is the number of probes.
    filter: Vec<u8>,
}

impl View for Bloom {
    type V = Seq<u8>;

    closed spec fn view(&self) -> Seq<u8> {
        self.filter@
    }
}

impl Bloom {
    fn delta(h: u64) -> (d: u64)
        ensures
            d == delta_of(h),
    {
        (h >> 34) | (h << 30)
    }

    /// A filter of `nbits` bits, rounded up to whole bytes, with `k` probes
    /// (one at least, fifteen at most), that holds every hash of `keys`.
    ///
    /// The bits that are set are those that a probe of one of the hashes
    /// looks at. So a filter with bits never denies a hash that it was
    /// built from; built from no hash, or without bits, it denies every
    /// hash.
    pub fn from_keys(keys: &[u64], nbits: usize, k: u8) -> (bloom: Self)
        requires
            nbits <= usize::MAX - 8,
        ensures
            bloom@.len() == (nbits + 7) / 8 + 1,
            probes_of(bloom@) == clamped_probes(k),
            forall|bit: int|
                0 <= bit < limit_of(bloom@) ==> (#[trigger] bit_at(bloom@, bit) <==> probed(
                    keys@,
                    keys@.len() as int,
                    clamped_probes(k) as nat,
                    limit_of(bloom@),
                    bit,
                )),
            nbits > 0 ==> forall|i: int|
                0 <= i < keys@.len() ==> filter_may_contain(bloom@, #[trigger] keys@[i]),
            keys@.len() == 0 || nbits == 0 ==> forall|h: u64| !filter_may_contain(bloom@, h),
    {
        let k = if k < 1 {
            1u8
        } else if k > 15 {
            15u8
        } else {
            k
        };
        let nbytes = (nbits + 7) / 8;
        let mut filter: Vec<u8> = Vec::with_capacity(nbytes + 1);
        let mut n: usize = 0;
        while n < nbytes
            invariant
                n <= nbytes,
                filter@.len() == n,
                forall|i: int| 0 <= i < n ==> filter@[i] == 0u8,
            decreases nbytes - n,
        {
            filter.push(0u8);
            n += 1;
        }
        filter.push(k);
        let limit = nbytes * 8;
        let ghost blank = filter@;
        proof {
            assert forall|h: u64| !filter_may_contain(blank, h) by {
                if blank.len() > 1 {
                    let bit = probe_bit(h, 0, limit_of(blank));
                    lemma_zero_byte((bit % 8) as u8);
                    assert(!bit_at(blank, bit));
                }
            }
            assert forall|bit: int| 0 <= bit < limit implies !#[trigger] bit_at(blank, bit) by {
                lemma_zero_byte((bit % 8) as u8);
            }
        }
        if limit == 0 {
            return Self { filter };
        }
        let mut i: usize = 0;
        while i < keys.len()
            invariant
                i <= keys@.len(),
                limit == nbytes * 8,
                limit > 0,
                filter@.len() == nbytes + 1,
                filter@.last() == k,
                1 <= k <= 15,
                keys@.len() == 0 ==> filter@ == blank,
                forall|j: int| 0 <= j < i ==> filter_may_contain(filter@, #[trigger] keys@[j]),
                forall|bit: int|
                    0 <= bit < limit ==> (#[trigger] bit_at(filter@, bit) <==> probed(
                        keys@,
                        i as int,
                        k as nat,
                        limit as int,
                        bit,
                    )),
            decreases keys@.len() - i,
        {
            let key = keys[i];
            let mut h = key;
            let delta = Self::delta(h);
            let mut p: u8 = 0;
            while p < k
                invariant
                    p <= k,
                    i < keys@.len(),
                    key == keys@[i as int],
                    limit == nbytes * 8,
                    limit > 0,
                    filter@.len() == nbytes + 1,
                    filter@.last() == k,
                    delta == delta_of(key),
                    h == probe_hash(key, p as nat),
                    forall|j: int| 0 <= j < i ==> filter_may_contain(filter@, #[trigger] keys@[j]),
                    forall|q: nat|
                        q < p ==> bit_at(filter@, #[trigger] probe_bit(key, q, limit as int)),
                    forall|bit: int|
                        0 <= bit < limit ==> (#[trigger] bit_at(filter@, bit) <==> probed(
                            keys@,
                            i as int,
                            k as nat,
                            limit as int,
                            bit,
                        ) || probed_by(key, p as nat, limit as int, bit)),
                decreases k - p,
            {
                let bit_pos = (h % (limit as u64)) as usize;
                let ghost before = filter@;
                filter.bit_set(bit_pos, true);
                proof {
                    assert(filter@.last() == k) by {
                        assert(bit_pos / 8 < nbytes);
                        lemma_bits_give_byte(before, filter@, nbytes as int);
                    }
                    lemma_bits_kept(before, filter@, bit_pos as int, limit as int);
                    assert forall|j: int| 0 <= j < i implies filter_may_contain(
                        filter@,
                        #[trigger] keys@[j],
                    ) by {
                        assert(filter_may_contain(before, keys@[j]));
                    }
                    assert(probe_bit(key, p as nat, limit as int) == bit_pos);
                    assert forall|bit: int| 0 <= bit < limit implies (#[trigger] bit_at(
                        filter@,
                        bit,
                    ) <==> probed(keys@, i as int, k as nat, limit as int, bit) || probed_by(
                        key,
                        (p + 1) as nat,
                        limit as int,
                        bit,
                    )) by {
                        if bit == bit_pos {
                            assert(probe_bit(key, p as nat, limit as int) == bit);
                        } else {
                            assert(bit_at(filter@, bit) == bit_at(before, bit));
                            if probed_by(key, (p + 1) as nat, limit as int, bit) {
                                let q = choose|q: nat|
                                    q < p + 1 && #[trigger] probe_bit(key, q, limit as int) == bit;
                                assert(q < p);
                            }
                            if probed_by(key, p as nat, limit as int, bit) {
                                let q = choose|q: nat|
                                    q < p && #[trigger] probe_bit(key, q, limit as int) == bit;
                                assert(q < p + 1);
                            }
                        }
                    }
                }
                h = h.wrapping_add(delta);
                p += 1;
            }
            proof {
                assert forall|bit: int| 0 <= bit < limit implies (#[trigger] bit_at(filter@, bit)
                    <==> probed(keys@, i + 1, k as nat, limit as int, bit)) by {
                    if probed(keys@, i + 1, k as nat, limit as int, bit) {
                        let j = choose|j: int|
                            0 <= j < i + 1 && #[trigger] probed_by(
                                keys@[j],
                                k as nat,
                                limit as int,
                                bit,
                            );
                        if j < i {
                            assert(probed(keys@, i as int, k as nat, limit as int, bit));
                        }
                    }
                    if probed(keys@, i as int, k as nat, limit as int, bit) {
                        let j = choose|j: int|
                            0 <= j < i && #[trigger] probed_by(
                                keys@[j],
                                k as nat,
                                limit as int,
                                bit,
                            );
                        assert(0 <= j < i + 1);
                    }
                    if probed_by(key, k as nat, limit as int, bit) {
                        assert(probed_by(keys@[i as int], k as nat, limit as int, bit));
                    }
                }
            }
            i += 1;
        }
        Self { filter }
    }

    /// Whether the filter may hold the hash `h`; `false` says that it
    /// certainly was not built from it. A filter without bits holds nothing.
    pub fn may_contain(&self, h: u64) -> (maybe: bool)
        ensures
            maybe == filter_may_contain(self@, h),
    {
        if self.filter.len() < 2 {
            return false;
        }
        let mut cur = h;
        let delta = Self::delta(h);
        let k = self.filter[self.filter.len() - 1];
        let nbytes: usize = self.filter.len() - 1;
        let limit: u128 = nbytes as u128 * 8;
        let mut p: u8 = 0;
        while p < k
            invariant
                p <= k,
                k == probes_of(self@),
                nbytes == self.filter@.len() - 1,
                limit == nbytes * 8,
                limit == limit_of(self@),
                limit > 0,
                self.filter@.len() > 1,
                delta == delta_of(h),
                cur == probe_hash(h, p as nat),
                forall|q: nat|
                    q < p ==> bit_at(self@, #[trigger] probe_bit(h, q, limit_of(self@))),
            decreases k - p,
        {
            let bit_pos: u128 = cur as u128 % limit;
            assert(0 <= bit_pos < limit) by (nonlinear_arith)
                requires
                    limit > 0,
                    bit_pos == cur as u128 % limit,
            ;
            assert(bit_pos == probe_bit(h, p as nat, limit_of(self@)));
            let pos = (bit_pos / 8) as usize;
            let offset = (bit_pos % 8) as u8;
            if !((self.filter[pos] & (1u8 << offset)) > 0) {
                assert(!bit_at(self@, probe_bit(h, p as nat, limit_of(self@))));
                return false;
            }
            cur = cur.wrapping_add(delta);
            p += 1;
        }
        true
    }

    /// The filter as a table stores it: the bits, then the number of probes.
    pub fn encode(self) -> (out: Vec<u8>)
        ensures
            out@ == self@,
    {
        self.filter
    }

    /// The filter that a table stores as `buf`.
    pub fn decode(buf: &[u8]) -> (bloom: Self)
        ensures
            bloom@ == buf@,
    {
        Self { filter: vstd::slice::slice_to_vec(buf) }
    }
}

/// Two byte strings of one length that agree on every bit of byte `at`
/// agree on that byte.
pub proof fn lemma_bits_give_byte(a: Seq<u8>, b: Seq<u8>, at: int)
    requires
        a.len() == b.len(),
        0 <= at < a.len(),
        forall|bit: int| at * 8 <= bit < at * 8 + 8 ==> bit_at(a, bit) == bit_at(b, bit),
    ensures
        a[at] == b[at],
{
    let x = a[at];
    let y = b[at];
    assert forall|o: u8| o < 8 implies bit_of(x, o) == bit_of(y, o) by {
        let bit = at * 8 + o;
        assert(bit / 8 == at && bit % 8 == o);
        assert(bit_at(a, bit) == bit_at(b, bit));
    }
    assert(bit_of(x, 0) == bit_of(y, 0) && bit_of(x, 1) == bit_of(y, 1) && bit_of(x, 2) == bit_of(
        y,
        2,
    ) && bit_of(x, 3) == bit_of(y, 3) && bit_of(x, 4) == bit_of(y, 4) && bit_of(x, 5) == bit_of(
        y,
        5,
    ) && bit_of(x, 6) == bit_of(y, 6) && bit_of(x, 7) == bit_of(y, 7));
    assert((x & (1u8 << 0u8) > 0) == (y & (1u8 << 0u8) > 0) && (x & (1u8 << 1u8) > 0) == (y & (1u8
        << 1u8) > 0) && (x & (1u8 << 2u8) > 0) == (y & (1u8 << 2u8) > 0) && (x & (1u8 << 3u8) > 0)
        == (y & (1u8 << 3u8) > 0) && (x & (1u8 << 4u8) > 0) == (y & (1u8 << 4u8) > 0) && (x & (1u8
        << 5u8) > 0) == (y & (1u8 << 5u8) > 0) && (x & (1u8 << 6u8) > 0) == (y & (1u8 << 6u8) > 0)
        && (x & (1u8 << 7u8) > 0) == (y & (1u8 << 7u8) > 0) ==> x == y) by (bit_vector);
}

/// Setting one bit among the first `limit` keeps what a filter may hold.
pub proof fn lemma_bits_kept(before: Seq<u8>, after: Seq<u8>, set: int, limit: int)
    requires
        before.len() == after.len(),
        before.len() > 1,
        limit == limit_of(before),
        0 <= set < limit,
        before.last() == after.last(),
        bit_at(after, set),
        forall|other: int|
            0 <= other < before.len() * 8 && other != set ==> bit_at(after, other) == bit_at(
                before,
                other,
            ),
    ensures
        forall|bit: int| 0 <= bit < limit && bit_at(before, bit) ==> bit_at(after, bit),
        forall|h: u64| filter_may_contain(before, h) ==> filter_may_contain(after, h),
{
    assert forall|h: u64| filter_may_contain(before, h) implies filter_may_contain(after, h) by {
        assert forall|j: nat| j < probes_of(after) implies bit_at(
            after,
            #[trigger] probe_bit(h, j, limit_of(after)),
        ) by {
            let bit = probe_bit(h, j, limit);
            assert(bit_at(before, bit));
        }
    }
}

} // verus!
