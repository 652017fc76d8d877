//! Sorted tables: immutable files of blocks with an index of the blocks
//! and an optional bloom filter.
//!
//! The content of a table file is
//! `| block | ... | block | block_meta | u32 meta_offset | bloom | u32
//! bloom_offset |`, where `bloom` may be missing: then `bloom_offset` is
//! the position of its own field.

pub mod builder;
pub mod file_object;
pub mod iterator;

pub use builder::SsTableBuilder;
pub use iterator::SsTableIterator;

use crate::block::iterator::BlockIterator;
use crate::block::{block_decoded, Block, BlockView, SIZEOF_U16};
use crate::bloom::{filter_may_contain, Bloom};
use crate::endian::{
    copy_range, get_u16, get_u32, lemma_u16_round_trip, lemma_u32_round_trip, put_slice, put_u16,
    put_u32, u16_at, u16_be, u32_at, u32_be,
};
use crate::error::LsmError;
use crate::key::{
    compare_keys, entries_sorted, key_le, key_lt, lemma_key_le_lt, lemma_key_lt_le,
    lemma_key_lt_transitive, KeyOrder,
};
use file_object::FileObject;
use std::sync::Arc;
use vstd::prelude::*;

verus! {

/// Number of bytes of a `u32` in the table format.
pub const SIZEOF_U32: usize = 4;

/// Where a block starts in the file, and the first key in it.
#[derive(Clone, Debug, PartialEq, Eq)]
pub struct BlockMeta {
    /// Offset of the block in the file; stored in 32 bits.
    pub offset: usize,
    /// The first key of the block.
    pub first_key: Vec<u8>,
}

impl View for BlockMeta {
    type V = (usize, Seq<u8>);

    open spec fn view(&self) -> (usize, Seq<u8>) {
        (self.offset, self.first_key@)
    }
}

/// The views of a sequence of block metas.
pub open spec fn metas_view(metas: Seq<BlockMeta>) -> Seq<(usize, Seq<u8>)> {
    Seq::new(metas.len(), |i: int| metas[i]@)
}

/// The bytes of one block meta: `| u32 offset | u16 first_key_len |
/// first_key |`.
pub open spec fn meta_encoded(m: (usize, Seq<u8>)) -> Seq<u8> {
    u32_be(m.0 as u32) + u16_be(m.1.len() as u16) + m.1
}

/// The bytes of a sequence of block metas, one after the other.
pub open spec fn metas_encoded(ms: Seq<(usize, Seq<u8>)>) -> Seq<u8>
    decreases ms.len(),
{
    if ms.len() == 0 {
        Seq::empty()
    } else {
        meta_encoded(ms[0]) + metas_encoded(ms.skip(1))
    }
}

/// Every meta fits the fields that store it.
pub open spec fn metas_storable(ms: Seq<(usize, Seq<u8>)>) -> bool {
    forall|i: int| 0 <= i < ms.len() ==> (#[trigger] ms[i]).0 <= 0xFFFF_FFFF && ms[i].1.len() <= 0xFFFF
}

/// The block metas that the bytes of `buf` from `at` on hold.
pub open spec fn metas_parsed(buf: Seq<u8>, at: int) -> Result<Seq<(usize, Seq<u8>)>, LsmError>
    decreases buf.len() - at,
{
    if at < 0 || at >= buf.len() {
        Ok(Seq::empty())
    } else if at + 6 > buf.len() {
        Err(LsmError::Truncated)
    } else {
        let end = at + 6 + u16_at(buf, at + 4);
        if end > buf.len() {
            Err(LsmError::Truncated)
        } else {
            match metas_parsed(buf, end) {
                Ok(rest) => Ok(seq![(u32_at(buf, at) as usize, buf.subrange(at + 6, end))] + rest),
                Err(e) => Err(e),
            }
        }
    }
}

/// The encoding of metas grows by the encoding of a meta that is appended.
pub proof fn lemma_metas_encoded_push(ms: Seq<(usize, Seq<u8>)>, m: (usize, Seq<u8>))
    ensures
        metas_encoded(ms.push(m)) == metas_encoded(ms) + meta_encoded(m),
    decreases ms.len(),
{
    if ms.len() == 0 {
        reveal_with_fuel(metas_encoded, 2);
        assert(ms.push(m).skip(1) =~= Seq::empty());
        assert(metas_encoded(ms.push(m)) =~= meta_encoded(m) + Seq::empty());
        assert(metas_encoded(ms) + meta_encoded(m) =~= meta_encoded(m));
    } else {
        lemma_metas_encoded_push(ms.skip(1), m);
        assert(ms.push(m).skip(1) =~= ms.skip(1).push(m));
        assert(metas_encoded(ms.push(m)) =~= meta_encoded(ms[0]) + (metas_encoded(ms.skip(1))
            + meta_encoded(m)));
    }
}

/// Where the bytes of a meta stand in `buf` from `at` on, its parts read
/// back as they were written.
pub proof fn lemma_meta_at(buf: Seq<u8>, at: int, m: (usize, Seq<u8>))
    requires
        0 <= at,
        at + 6 + m.1.len() <= buf.len(),
        buf.subrange(at, at + 6 + m.1.len()) == meta_encoded(m),
        m.0 <= 0xFFFF_FFFF,
        m.1.len() <= 0xFFFF,
    ensures
        u32_at(buf, at) == m.0,
        u16_at(buf, at + 4) == m.1.len(),
        buf.subrange(at + 6, at + 6 + m.1.len()) == m.1,
{
    let e = meta_encoded(m);
    let sub = buf.subrange(at, at + 6 + m.1.len());
    let klen = m.1.len() as u16;
    lemma_u32_round_trip(Seq::empty(), m.0 as u32, u16_be(klen) + m.1);
    assert(e =~= Seq::empty() + u32_be(m.0 as u32) + (u16_be(klen) + m.1));
    lemma_u16_round_trip(u32_be(m.0 as u32), klen, m.1);
    assert(buf[at] == sub[0] && buf[at + 1] == sub[1] && buf[at + 2] == sub[2] && buf[at + 3]
        == sub[3] && buf[at + 4] == sub[4] && buf[at + 5] == sub[5]);
    assert(u32_at(buf, at) == u32_at(e, 0));
    assert(u16_at(buf, at + 4) == u16_at(e, 4));
    assert(buf.subrange(at + 6, at + 6 + m.1.len()) =~= sub.subrange(6, 6 + m.1.len() as int));
    assert(e.subrange(6, 6 + m.1.len() as int) =~= m.1);
}

/// The encoding of metas is the encoding of the first, then that of the
/// others.
proof fn lemma_metas_encoded_first(ms: Seq<(usize, Seq<u8>)>)
    requires
        ms.len() > 0,
    ensures
        metas_encoded(ms) == meta_encoded(ms[0]) + metas_encoded(ms.skip(1)),
        meta_encoded(ms[0]).len() == 6 + ms[0].1.len(),
{
}

/// The bytes of `buf` from `at` on parse as the meta `m` and then as what
/// the bytes behind it parse as.
proof fn lemma_parse_first(buf: Seq<u8>, at: int, m: (usize, Seq<u8>))
    requires
        0 <= at,
        at + 6 + m.1.len() <= buf.len(),
        u32_at(buf, at) == m.0,
        u16_at(buf, at + 4) == m.1.len(),
        buf.subrange(at + 6, at + 6 + m.1.len()) == m.1,
    ensures
        metas_parsed(buf, at) == match metas_parsed(buf, at + 6 + m.1.len()) {
            Ok(rest) => Ok::<Seq<(usize, Seq<u8>)>, LsmError>(seq![m] + rest),
            Err(e) => Err::<Seq<(usize, Seq<u8>)>, LsmError>(e),
        },
{
}

/// Metas that were written behind `pre` read back as they were.
#[verifier::spinoff_prover]
#[verifier::rlimit(60)]
pub proof fn lemma_metas_round_trip(pre: Seq<u8>, ms: Seq<(usize, Seq<u8>)>)
    requires
        metas_storable(ms),
    ensures
        metas_parsed(pre + metas_encoded(ms), pre.len() as int) == Ok::<
            Seq<(usize, Seq<u8>)>,
            LsmError,
        >(ms),
    decreases ms.len(),
{
    let buf = pre + metas_encoded(ms);
    let at = pre.len() as int;
    if ms.len() == 0 {
        assert(ms =~= Seq::empty());
    } else {
        let m = ms[0];
        let rest = ms.skip(1);
        let tail = metas_encoded(rest);
        assert(metas_storable(rest)) by {
            assert forall|i: int| 0 <= i < rest.len() implies (#[trigger] rest[i]).0 <= 0xFFFF_FFFF
                && rest[i].1.len() <= 0xFFFF by {
                assert(rest[i] == ms[i + 1]);
            }
        }
        lemma_metas_encoded_first(ms);
        let end = at + 6 + m.1.len();
        assert(buf.subrange(at, end) =~= meta_encoded(m));
        lemma_meta_at(buf, at, m);
        lemma_metas_round_trip(pre + meta_encoded(m), rest);
        assert(buf =~= (pre + meta_encoded(m)) + tail);
        lemma_parse_first(buf, at, m);
        assert(seq![m] + rest =~= ms);
    }
}

impl BlockMeta {
    /// Appends the encoding of the metas to `buf`.
    pub fn encode_block_meta(block_meta: &[BlockMeta], buf: &mut Vec<u8>)
        requires
            metas_storable(metas_view(block_meta@)),
        ensures
            final(buf)@ == old(buf)@ + metas_encoded(metas_view(block_meta@)),
    {
        let ghost ms = metas_view(block_meta@);
        let mut i: usize = 0;
        assert(ms.take(0) =~= Seq::empty());
        while i < block_meta.len()
            invariant
                i <= block_meta@.len(),
                ms == metas_view(block_meta@),
                metas_storable(ms),
                buf@ == old(buf)@ + metas_encoded(ms.take(i as int)),
            decreases block_meta@.len() - i,
        {
            let meta = &block_meta[i];
            assert(ms[i as int] == meta@);
            proof {
                lemma_metas_encoded_push(ms.take(i as int), ms[i as int]);
                assert(ms.take(i as int).push(ms[i as int]) =~= ms.take(i + 1));
            }
            put_u32(buf, meta.offset as u32);
            put_u16(buf, meta.first_key.len() as u16);
            put_slice(buf, meta.first_key.as_slice());
            assert(buf@ =~= old(buf)@ + metas_encoded(ms.take(i + 1)));
            i += 1;
        }
        assert(ms.take(block_meta@.len() as int) =~= ms);
    }

    /// Reads block metas out of all of `buf`; `Truncated` where the bytes
    /// end inside a meta.
    pub fn decode_block_meta(buf: &[u8]) -> (r: Result<Vec<BlockMeta>, LsmError>)
        ensures
            match r {
                Ok(metas) => metas_parsed(buf@, 0) == Ok::<Seq<(usize, Seq<u8>)>, LsmError>(
                    metas_view(metas@),
                ),
                Err(e) => metas_parsed(buf@, 0) == Err::<Seq<(usize, Seq<u8>)>, LsmError>(e),
            },
    {
        let mut metas: Vec<BlockMeta> = Vec::new();
        let n = buf.len();
        let mut at: usize = 0;
        assert(metas_view(metas@) =~= Seq::empty());
        while at < n
            invariant
                at <= n == buf@.len(),
                metas_parsed(buf@, 0) == match metas_parsed(buf@, at as int) {
                    Ok(rest) => Ok::<Seq<(usize, Seq<u8>)>, LsmError>(metas_view(metas@) + rest),
                    Err(e) => Err::<Seq<(usize, Seq<u8>)>, LsmError>(e),
                },
            decreases n - at,
        {
            if n - at < 6 {
                return Err(LsmError::Truncated);
            }
            let offset = get_u32(buf, at) as usize;
            let klen = get_u16(buf, at + 4) as usize;
            if n - at - 6 < klen {
                return Err(LsmError::Truncated);
            }
            let end = at + 6 + klen;
            let first_key = copy_range(buf, at + 6, end);
            let ghost before = metas_view(metas@);
            metas.push(BlockMeta { offset, first_key });
            proof {
                assert(metas_view(metas@) =~= before.push((offset, first_key@)));
                match metas_parsed(buf@, end as int) {
                    Ok(rest) => {
                        assert(before + (seq![(offset, first_key@)] + rest) =~= metas_view(metas@)
                            + rest);
                    },
                    Err(_) => {},
                }
            }
            at = end;
        }
        assert(metas_view(metas@) + Seq::empty() =~= metas_view(metas@));
        Ok(metas)
    }
}

/// The position of the bloom filter in the content of a table file: the
/// integer in its last four bytes.
pub open spec fn bloom_offset_of(data: Seq<u8>) -> int {
    u32_at(data, data.len() - 4) as int
}

/// The position of the block metas in the content of a table file: the
/// integer just before the bloom filter.
pub open spec fn meta_offset_of(data: Seq<u8>) -> int {
    u32_at(data, bloom_offset_of(data) - 4) as int
}

/// The two offsets at the end of the content point backwards into it, the
/// one of the metas before the other.
pub open spec fn trailer_ok(data: Seq<u8>) -> bool {
    &&& data.len() >= 8
    &&& 4 <= bloom_offset_of(data) <= data.len() - 4
    &&& meta_offset_of(data) <= bloom_offset_of(data) - 4
}

/// The stored bloom filter, where the file has one.
pub open spec fn bloom_of(data: Seq<u8>) -> Option<Seq<u8>> {
    if bloom_offset_of(data) + 4 == data.len() {
        None
    } else {
        Some(data.subrange(bloom_offset_of(data), data.len() - 4))
    }
}

/// The stored block metas.
pub open spec fn meta_bytes_of(data: Seq<u8>) -> Seq<u8> {
    data.subrange(meta_offset_of(data), bloom_offset_of(data) - 4)
}

/// The blocks lie one behind the other before the metas: there is a block,
/// the offsets grow, and the last block starts before the metas.
pub open spec fn index_ok(ms: Seq<(usize, Seq<u8>)>, meta_offset: int) -> bool {
    &&& ms.len() > 0
    &&& forall|i: int, j: int| 0 <= i < j < ms.len() ==> (#[trigger] ms[i]).0 < (#[trigger] ms[j]).0
    &&& ms.last().0 < meta_offset
}

/// Where block `i` ends: where the next one starts, or the metas.
pub open spec fn block_end(ms: Seq<(usize, Seq<u8>)>, meta_offset: int, i: int) -> int {
    if i + 1 < ms.len() {
        ms[i + 1].0 as int
    } else {
        meta_offset
    }
}

/// The bytes of block `i`.
pub open spec fn block_bytes(
    data: Seq<u8>,
    ms: Seq<(usize, Seq<u8>)>,
    meta_offset: int,
    i: int,
) -> Seq<u8> {
    data.subrange(ms[i].0 as int, block_end(ms, meta_offset, i))
}

/// The first keys of the blocks grow strictly.
pub open spec fn first_keys_sorted(ms: Seq<(usize, Seq<u8>)>) -> bool {
    forall|i: int, j: int| 0 <= i < j < ms.len() ==> key_lt(#[trigger] ms[i].1, #[trigger] ms[j].1)
}

/// Block `idx` is the one to look in for `key`: every later block starts
/// above the key, and this one starts at or below it unless it is the first.
pub open spec fn is_block_for(ms: Seq<(usize, Seq<u8>)>, key: Seq<u8>, idx: int) -> bool {
    &&& 0 <= idx < ms.len()
    &&& forall|j: int| idx < j < ms.len() ==> key_lt(key, #[trigger] ms[j].1)
    &&& idx > 0 ==> key_le(ms[idx].1, key)
}

/// A key that sorts before the first key of a sorted index falls into the
/// first block.
pub proof fn lemma_below_smallest(ms: Seq<(usize, Seq<u8>)>, key: Seq<u8>, idx: int)
    requires
        first_keys_sorted(ms),
        is_block_for(ms, key, idx),
        key_lt(key, ms[0].1),
    ensures
        idx == 0,
{
    if idx > 0 {
        assert(key_lt(ms[0].1, ms[idx].1));
        lemma_key_lt_le(ms[0].1, ms[idx].1, key);
        crate::key::lemma_key_lt_asymmetric(key, ms[0].1);
    }
}

/// A table: the content of its file and, read out of it, the index of its
/// blocks, its bloom filter and its range of keys.
#[derive(Debug)]
pub struct SsTable {
    id: u64,
    file: FileObject,
    block_metas: Vec<BlockMeta>,
    block_meta_offset: usize,
    smallest_key: Vec<u8>,
    biggest_key: Vec<u8>,
    size: usize,
    bloom: Option<Bloom>,
}

impl SsTable {
    /// The id of the table: the number in the name of its file.
    pub closed spec fn spec_id(&self) -> u64 {
        self.id
    }

    /// The first key of the table.
    pub closed spec fn smallest(&self) -> Seq<u8> {
        self.smallest_key@
    }

    /// The last key of the table.
    pub closed spec fn biggest(&self) -> Seq<u8> {
        self.biggest_key@
    }

    /// The number of bytes of the file, without its checksum.
    pub closed spec fn spec_size(&self) -> usize {
        self.size
    }

    /// The content of the file of the table.
    pub fn file(&self) -> (file: &FileObject)
        ensures
            file@ == self.data(),
    {
        &self.file
    }

    /// The id of the table: the number in the name of its file.
    #[verifier::when_used_as_spec(spec_id)]
    pub fn id(&self) -> (id: u64)
        ensures
            id == self.spec_id(),
    {
        self.id
    }

    /// The first key of the table.
    pub fn smallest_key(&self) -> (key: &[u8])
        ensures
            key@ == self.smallest(),
    {
        self.smallest_key.as_slice()
    }

    /// The last key of the table.
    pub fn biggest_key(&self) -> (key: &[u8])
        ensures
            key@ == self.biggest(),
    {
        self.biggest_key.as_slice()
    }

    /// The number of bytes of the file, without its checksum.
    #[verifier::when_used_as_spec(spec_size)]
    pub fn size(&self) -> (n: usize)
        ensures
            n == self.spec_size(),
    {
        self.size
    }

    /// The content of the file.
    pub closed spec fn data(&self) -> Seq<u8> {
        self.file@
    }

    /// The index of the blocks.
    pub closed spec fn metas(&self) -> Seq<(usize, Seq<u8>)> {
        metas_view(self.block_metas@)
    }

    /// Where the blocks end and the metas start.
    pub closed spec fn meta_offset(&self) -> int {
        self.block_meta_offset as int
    }

    /// The bloom filter, where the table has one.
    pub closed spec fn bloom(&self) -> Option<Seq<u8>> {
        match self.bloom {
            Some(bloom) => Some(bloom@),
            None => None,
        }
    }

    /// The bytes of block `i`.
    pub open spec fn region(&self, i: int) -> Seq<u8> {
        block_bytes(self.data(), self.metas(), self.meta_offset(), i)
    }

    /// The entries of block `i`; none where its bytes do not decode.
    pub open spec fn block_entries(&self, i: int) -> Seq<(Seq<u8>, Seq<u8>)> {
        match block_decoded(self.region(i)) {
            Ok(v) => v.entries(),
            Err(_) => Seq::empty(),
        }
    }

    /// The entries of the blocks from block `i` on.
    pub open spec fn entries_from(&self, i: int) -> Seq<(Seq<u8>, Seq<u8>)>
        decreases self.metas().len() - i,
    {
        if i < 0 || i >= self.metas().len() {
            Seq::empty()
        } else {
            self.block_entries(i) + self.entries_from(i + 1)
        }
    }

    /// The entries of the table.
    pub open spec fn entries(&self) -> Seq<(Seq<u8>, Seq<u8>)> {
        self.entries_from(0)
    }

    /// The entries of the blocks before block `i`.
    pub open spec fn entries_before(&self, i: int) -> Seq<(Seq<u8>, Seq<u8>)>
        decreases i,
    {
        if i <= 0 {
            Seq::empty()
        } else {
            self.entries_before(i - 1) + self.block_entries(i - 1)
        }
    }

    /// Every block decodes.
    pub open spec fn readable(&self) -> bool {
        forall|i: int| 0 <= i < self.metas().len() ==> (#[trigger] block_decoded(self.region(i))) is Ok
    }

    /// The entries of the table are those before block `i`, then those from
    /// block `i` on.
    pub proof fn lemma_entries_split(&self, i: int)
        requires
            0 <= i <= self.metas().len(),
        ensures
            self.entries() == self.entries_before(i) + self.entries_from(i),
        decreases i,
    {
        if i == 0 {
            assert(self.entries_before(0) + self.entries_from(0) =~= self.entries_from(0));
        } else {
            self.lemma_entries_split(i - 1);
            assert((self.entries_before(i - 1) + self.block_entries(i - 1)) + self.entries_from(i)
                =~= self.entries_before(i - 1) + (self.block_entries(i - 1) + self.entries_from(
                i,
            )));
        }
    }

    /// In a table whose blocks decode no block is empty, and the blocks
    /// before a later block are at least those before an earlier one.
    pub proof fn lemma_before_grows(&self, i: int, j: int)
        requires
            self.readable(),
            0 <= i <= j <= self.metas().len(),
        ensures
            self.entries_before(i).len() <= self.entries_before(j).len(),
            i < j ==> self.entries_before(i).len() + self.block_entries(i).len()
                <= self.entries_before(j).len(),
            i < self.metas().len() ==> self.block_entries(i).len() > 0,
        decreases j - i,
    {
        if i < self.metas().len() {
            assert(block_decoded(self.region(i)) is Ok);
        }
        if i < j {
            self.lemma_before_grows(i, j - 1);
            assert(block_decoded(self.region(j - 1)) is Ok);
        }
    }

    /// The entry at position `q` of block `i` is the entry of the table at
    /// that position behind the blocks before block `i`.
    pub proof fn lemma_entry_position(&self, i: int, q: int)
        requires
            0 <= i < self.metas().len(),
            0 <= q < self.block_entries(i).len(),
        ensures
            self.entries_before(i).len() + q < self.entries().len(),
            self.entries()[self.entries_before(i).len() + q] == self.block_entries(i)[q],
    {
        self.lemma_entries_split(i);
    }

    /// In an intact table the first keys of the index grow strictly.
    pub proof fn lemma_first_keys_sorted(&self)
        requires
            self.intact(),
        ensures
            first_keys_sorted(self.metas()),
    {
        let ms = self.metas();
        assert forall|i: int, j: int| 0 <= i < j < ms.len() implies key_lt(
            #[trigger] ms[i].1,
            #[trigger] ms[j].1,
        ) by {
            assert(block_decoded(self.region(i)) is Ok);
            assert(block_decoded(self.region(j)) is Ok);
            self.lemma_before_grows(i, j);
            self.lemma_before_grows(j, j);
            self.lemma_entry_position(i, 0);
            self.lemma_entry_position(j, 0);
            let a = self.entries_before(i).len() as int;
            let b = self.entries_before(j).len() as int;
            assert(key_lt(self.entries()[a].0, self.entries()[b].0));
        }
    }

    /// In an intact table the keys of every block grow strictly.
    pub proof fn lemma_block_sorted(&self, i: int)
        requires
            self.intact(),
            0 <= i < self.metas().len(),
        ensures
            entries_sorted(self.block_entries(i)),
    {
        let e = self.entries();
        let be = self.block_entries(i);
        let base = self.entries_before(i).len() as int;
        assert forall|a: int, b: int| 0 <= a < b < be.len() implies key_lt(
            #[trigger] be[a].0,
            #[trigger] be[b].0,
        ) by {
            self.lemma_entry_position(i, a);
            self.lemma_entry_position(i, b);
            assert(key_lt(e[base + a].0, e[base + b].0));
        }
    }

    /// In an intact table, a seek that went to position `p` of the block
    /// `first` that the index gives for `key`, or on to the start of the
    /// next block where `p` is past the end of `first`, stands where `key`
    /// parts the table.
    pub proof fn lemma_seeked(
        &self,
        key: Seq<u8>,
        first: int,
        p: int,
        idx: int,
        block_rest: Seq<(Seq<u8>, Seq<u8>)>,
    )
        requires
            self.intact(),
            is_block_for(self.metas(), key, first),
            crate::key::is_lower_bound(self.block_entries(first), key, p),
            (idx == first && block_rest == self.block_entries(first).skip(p) && (p
                < self.block_entries(first).len() || first == self.metas().len() - 1)) || (idx
                == first + 1 && idx < self.metas().len() && p == self.block_entries(first).len()
                && block_rest == self.block_entries(idx)),
        ensures
            crate::key::seeked(self.entries(), key, block_rest + self.entries_from(idx + 1)),
    {
        let e = self.entries();
        let be = self.block_entries(first);
        let rest = block_rest + self.entries_from(idx + 1);
        let base = self.entries_before(first).len() as int;
        assert(block_decoded(self.region(first)) is Ok);
        self.lemma_entries_split(first);
        self.lemma_entries_split(first + 1);
        self.lemma_seek_position(key, first, p);
        assert(e =~= self.entries_before(first) + (be + self.entries_from(first + 1)));
        if idx == first {
            if first + 1 >= self.metas().len() {
                assert(self.entries_from(first + 1) =~= Seq::empty());
            }
            assert(e.skip(base + p) =~= be.skip(p) + self.entries_from(first + 1));
        } else {
            assert(rest =~= self.entries_from(first + 1));
            assert(e.skip(base + p) =~= rest);
        }
    }

    /// In an intact table, the position at which `key` parts the block that
    /// the index gives for it, taken behind the blocks before, parts the
    /// whole table at `key`.
    pub proof fn lemma_seek_position(&self, key: Seq<u8>, idx: int, p: int)
        requires
            self.intact(),
            is_block_for(self.metas(), key, idx),
            crate::key::is_lower_bound(self.block_entries(idx), key, p),
        ensures
            crate::key::is_lower_bound(self.entries(), key, self.entries_before(idx).len() + p),
    {
        let e = self.entries();
        let n = self.metas().len() as int;
        let base = self.entries_before(idx).len() as int;
        let be = self.block_entries(idx);
        assert(self.readable());
        self.lemma_entries_split(idx);
        self.lemma_entries_split(idx + 1);
        self.lemma_before_grows(idx, idx + 1);
        assert(block_decoded(self.region(idx)) is Ok);
        assert(e.len() >= base + be.len());
        assert forall|g: int| 0 <= g < base + p implies key_lt(#[trigger] e[g].0, key) by {
            if g < base {
                self.lemma_entry_position(idx, 0);
                assert(key_lt(e[g].0, e[base].0));
                assert(e[base].0 == self.metas()[idx].1);
                lemma_key_lt_le(e[g].0, self.metas()[idx].1, key);
            } else {
                self.lemma_entry_position(idx, g - base);
                assert(key_lt(be[g - base].0, key));
            }
        }
        assert forall|g: int| base + p <= g < e.len() implies key_le(key, #[trigger] e[g].0) by {
            if g < base + be.len() {
                self.lemma_entry_position(idx, g - base);
                assert(key_le(key, be[g - base].0));
            } else {
                assert(idx + 1 < n) by {
                    if idx + 1 >= n {
                        assert(self.entries_from(idx + 1) =~= Seq::empty());
                    }
                }
                let next = base + be.len();
                assert(block_decoded(self.region(idx + 1)) is Ok);
                self.lemma_before_grows(idx + 1, idx + 1);
                self.lemma_entry_position(idx + 1, 0);
                assert(e[next].0 == self.metas()[idx + 1].1);
                assert(key_lt(key, self.metas()[idx + 1].1));
                if g > next {
                    assert(key_lt(e[next].0, e[g].0));
                    lemma_key_lt_transitive(key, e[next].0, e[g].0);
                }
            }
        }
    }

    /// What holds of every table: index, filter and size are what the file
    /// holds, the blocks lie in the file one behind the other, and the range
    /// of keys is from the first key of the index to the last key of the
    /// last block.
    pub open spec fn wf(&self) -> bool {
        &&& trailer_ok(self.data())
        &&& self.size() == self.data().len()
        &&& self.meta_offset() == meta_offset_of(self.data())
        &&& self.bloom() == bloom_of(self.data())
        &&& metas_parsed(meta_bytes_of(self.data()), 0) == Ok::<Seq<(usize, Seq<u8>)>, LsmError>(
            self.metas(),
        )
        &&& index_ok(self.metas(), self.meta_offset())
        &&& self.smallest() == self.metas()[0].1
        &&& block_decoded(self.region(self.metas().len() - 1)) is Ok
        &&& self.biggest() == self.block_entries(self.metas().len() - 1).last().0
    }

    /// Every block decodes and starts with the key that the index has for
    /// it, and the keys of the table grow strictly.
    pub open spec fn intact(&self) -> bool {
        &&& forall|i: int|
            0 <= i < self.metas().len() ==> (#[trigger] block_decoded(self.region(i))) is Ok
                && self.block_entries(i)[0].0 == self.metas()[i].1
        &&& entries_sorted(self.entries())
    }

    /// The value that the table has for the key.
    pub open spec fn value_of(&self, key: Seq<u8>) -> Option<Seq<u8>> {
        crate::key::value_in(self.entries(), key)
    }

    /// The bloom filter, where there is one, denies no key of the table.
    pub open spec fn bloom_sound(&self) -> bool {
        match self.bloom() {
            Some(filter) => forall|i: int|
                0 <= i < self.entries().len() ==> filter_may_contain(
                    filter,
                    xxh3_64(#[trigger] self.entries()[i].0),
                ),
            None => true,
        }
    }

    /// The table is intact and its bloom filter sound: every lookup in it
    /// finds what it holds.
    pub open spec fn sound(&self) -> bool {
        self.intact() && self.bloom_sound()
    }

    /// Two tables of one content have the same entries from block `i` on.
    pub proof fn lemma_entries_from_same(&self, other: &SsTable, i: int)
        requires
            self.metas() == other.metas(),
            self.meta_offset() == other.meta_offset(),
            self.data() == other.data(),
        ensures
            self.entries_from(i) == other.entries_from(i),
        decreases self.metas().len() - i,
    {
        if 0 <= i < self.metas().len() {
            assert(self.region(i) == other.region(i));
            self.lemma_entries_from_same(other, i + 1);
        }
    }

    /// What a table holds, and whether it is sound, lies in the content of
    /// its file alone: a table that is opened from the content of a sound
    /// table is sound and holds the same entries.
    pub proof fn lemma_sound_by_content(&self, other: &SsTable)
        requires
            self.wf(),
            other.wf(),
            self.data() == other.data(),
        ensures
            self.metas() == other.metas(),
            self.bloom() == other.bloom(),
            self.entries() == other.entries(),
            self.readable() == other.readable(),
            self.intact() == other.intact(),
            self.sound() == other.sound(),
            self.smallest() == other.smallest(),
            self.biggest() == other.biggest(),
    {
        self.lemma_entries_from_same(other, 0);
        assert forall|i: int| 0 <= i < self.metas().len() implies self.region(i) == other.region(
            i,
        ) by {}
        assert(self.readable() == other.readable());
        assert(self.intact() == other.intact());
    }

    /// Every key of an intact table lies between its first key and its
    /// last.
    pub proof fn lemma_holds_within(&self, x: int)
        requires
            self.wf(),
            self.intact(),
            0 <= x < self.entries().len(),
        ensures
            key_le(self.smallest(), self.entries()[x].0),
            key_le(self.entries()[x].0, self.biggest()),
    {
        self.lemma_key_range();
        let e = self.entries();
        if x > 0 {
            assert(key_lt(e[0].0, e[x].0));
        }
        if x < e.len() - 1 {
            assert(key_lt(e[x].0, e[e.len() - 1].0));
        }
    }

    /// The range of keys of an intact table is from its first key to its
    /// last.
    pub proof fn lemma_key_range(&self)
        requires
            self.wf(),
            self.intact(),
        ensures
            self.entries().len() > 0,
            self.smallest() == self.entries()[0].0,
            self.biggest() == self.entries().last().0,
            key_le(self.smallest(), self.biggest()),
    {
        let n = self.metas().len() as int;
        assert(self.readable());
        assert(block_decoded(self.region(0)) is Ok);
        assert(block_decoded(self.region(n - 1)) is Ok);
        self.lemma_before_grows(0, n);
        self.lemma_before_grows(n - 1, n);
        self.lemma_entry_position(0, 0);
        let last = self.block_entries(n - 1);
        self.lemma_entry_position(n - 1, last.len() - 1);
        self.lemma_entries_split(n - 1);
        self.lemma_entries_split(n);
        assert(self.entries_from(n) =~= Seq::empty());
        assert(self.entries_from(n - 1) =~= last);
        assert(self.entries() =~= self.entries_before(n - 1) + last);
        let e = self.entries();
        if e.len() > 1 {
            assert(key_lt(e[0].0, e[e.len() - 1].0));
        }
    }

    /// Whether the content of a file opens as a table, and if not, why.
    pub open spec fn open_error(data: Seq<u8>) -> Option<LsmError> {
        if !trailer_ok(data) {
            Some(LsmError::Truncated)
        } else {
            match metas_parsed(meta_bytes_of(data), 0) {
                Err(e) => Some(e),
                Ok(ms) => if !index_ok(ms, meta_offset_of(data)) {
                    Some(LsmError::Truncated)
                } else {
                    match block_decoded(
                        block_bytes(data, ms, meta_offset_of(data), ms.len() - 1),
                    ) {
                        Err(e) => Some(e),
                        Ok(_) => None,
                    }
                },
            }
        }
    }

    /// Opens the table that the file holds.
    ///
    /// Fails with `Truncated` where the offsets at the end of the file or
    /// the index do not fit the file, and with the error of the last block
    /// where that does not decode.
    pub fn open(id: u64, file: FileObject) -> (r: Result<Self, LsmError>)
        ensures
            match r {
                Ok(table) => Self::open_error(file@) is None && table.wf() && table.id() == id
                    && table.data() == file@,
                Err(e) => Self::open_error(file@) == Some(e),
            },
    {
        let size = file.size();
        let data = file.bytes();
        if size < 8 {
            return Err(LsmError::Truncated);
        }
        let offset = get_u32(data, size - SIZEOF_U32) as usize;
        if offset < 4 || offset > size - 4 {
            return Err(LsmError::Truncated);
        }
        let meta_offset = get_u32(data, offset - SIZEOF_U32) as usize;
        if meta_offset > offset - 4 {
            return Err(LsmError::Truncated);
        }
        let bloom = if size == offset + SIZEOF_U32 {
            None
        } else {
            Some(Bloom::decode(vstd::slice::slice_subrange(data, offset, size - SIZEOF_U32)))
        };
        let meta_buf = vstd::slice::slice_subrange(data, meta_offset, offset - SIZEOF_U32);
        let block_metas = match BlockMeta::decode_block_meta(meta_buf) {
            Ok(metas) => metas,
            Err(e) => { return Err(e); },
        };
        if !Self::check_index(&block_metas, meta_offset) {
            return Err(LsmError::Truncated);
        }
        let mut table = Self {
            id,
            size,
            file,
            block_metas,
            block_meta_offset: meta_offset,
            smallest_key: Vec::new(),
            biggest_key: Vec::new(),
            bloom,
        };
        match table.init_samllest_biggest_key() {
            Ok(()) => Ok(table),
            Err(e) => Err(e),
        }
    }

    /// Whether the blocks of the index lie one behind the other before the
    /// metas.
    fn check_index(metas: &Vec<BlockMeta>, meta_offset: usize) -> (ok: bool)
        ensures
            ok == index_ok(metas_view(metas@), meta_offset as int),
    {
        let ghost ms = metas_view(metas@);
        let n = metas.len();
        if n == 0 {
            return false;
        }
        let mut i: usize = 0;
        while i < n - 1
            invariant
                i <= n - 1,
                n == metas@.len(),
                ms == metas_view(metas@),
                forall|a: int, b: int| 0 <= a < b <= i ==> (#[trigger] ms[a]).0 < (#[trigger] ms[b]).0,
            decreases n - i,
        {
            assert(ms[i as int] == metas@[i as int]@);
            assert(ms[i + 1] == metas@[i + 1]@);
            if metas[i].offset >= metas[i + 1].offset {
                return false;
            }
            assert forall|a: int, b: int| 0 <= a < b <= i + 1 implies (#[trigger] ms[a]).0 < (
            #[trigger] ms[b]).0 by {
                if b == i + 1 && a < i {
                    assert(ms[a].0 < ms[i as int].0);
                }
            }
            i += 1;
        }
        assert(ms[n - 1] == metas@[n - 1]@);
        metas[n - 1].offset < meta_offset
    }

    /// The structure that reading a block needs: the blocks lie in the file
    /// one behind the other.
    pub open spec fn index_wf(&self) -> bool {
        &&& index_ok(self.metas(), self.meta_offset())
        &&& self.meta_offset() <= self.data().len()
    }

    /// Whether the table may hold the key: what its bloom filter says of
    /// the hash of the key, and `true` without a filter.
    pub fn may_contain(&self, key: &[u8]) -> (maybe: bool)
        ensures
            maybe == match self.bloom() {
                Some(filter) => filter_may_contain(filter, xxh3_64(key@)),
                None => true,
            },
    {
        match &self.bloom {
            Some(bloom) => bloom.may_contain(hash_key(key)),
            None => true,
        }
    }

    /// An estimate of the bytes of the table between two keys: the distance
    /// between the blocks that the keys fall into, and zero where the block
    /// of `upper` does not lie behind that of `lower`.
    pub fn overlap_size(&self, lower: &[u8], upper: &[u8]) -> (n: usize)
        requires
            self.index_wf(),
        ensures
            n == self.overlap(lower@, upper@),
    {
        let l = self.find_block_idx(lower);
        let r = self.find_block_idx(upper);
        let loffset = self.block_metas[l].offset;
        let roffset = self.block_metas[r].offset;
        assert(self.metas()[l as int] == self.block_metas@[l as int]@);
        assert(self.metas()[r as int] == self.block_metas@[r as int]@);
        if roffset >= loffset {
            roffset - loffset
        } else {
            0
        }
    }

    /// The estimate of the bytes of the table between two keys.
    pub open spec fn overlap(&self, lower: Seq<u8>, upper: Seq<u8>) -> int {
        Self::gap(
            self.metas()[self.block_index(lower)].0 as int,
            self.metas()[self.block_index(upper)].0 as int,
        )
    }

    /// The distance from `from` to `to`, and zero where `to` lies before.
    pub open spec fn gap(from: int, to: int) -> int {
        if to >= from {
            to - from
        } else {
            0
        }
    }

    /// Reads the range of keys out of the index and the last block.
    pub fn init_samllest_biggest_key(&mut self) -> (r: Result<(), LsmError>)
        requires
            old(self).index_wf(),
        ensures
            final(self).id() == old(self).id(),
            final(self).size() == old(self).size(),
            final(self).data() == old(self).data(),
            final(self).metas() == old(self).metas(),
            final(self).meta_offset() == old(self).meta_offset(),
            final(self).bloom() == old(self).bloom(),
            match r {
                Ok(()) => {
                    &&& block_decoded(old(self).region(old(self).metas().len() - 1)) is Ok
                    &&& final(self).smallest() == old(self).metas()[0].1
                    &&& final(self).biggest() == old(self).block_entries(
                        old(self).metas().len() - 1,
                    ).last().0
                },
                Err(e) => block_decoded(old(self).region(old(self).metas().len() - 1)) == Err::<
                    BlockView,
                    LsmError,
                >(e),
            },
    {
        assert(self.metas()[0] == self.block_metas@[0]@);
        let smallest = self.block_metas[0].first_key.clone();
        let last_block = match self.read_block(self.num_of_blocks() - 1) {
            Ok(block) => block,
            Err(e) => { return Err(e); },
        };
        let mut iter = BlockIterator::create_and_seek_to_first(last_block);
        iter.seek_to_last();
        let biggest = vstd::slice::slice_to_vec(iter.key());
        self.smallest_key = smallest;
        self.biggest_key = biggest;
        Ok(())
    }

    /// Reads and decodes block `block_idx`.
    pub fn read_block(&self, block_idx: usize) -> (r: Result<Arc<Block>, LsmError>)
        requires
            self.index_wf(),
            block_idx < self.metas().len(),
        ensures
            match r {
                Ok(block) => block_decoded(self.region(block_idx as int)) == Ok::<
                    BlockView,
                    LsmError,
                >(block@) && block.wf(),
                Err(e) => block_decoded(self.region(block_idx as int)) == Err::<
                    BlockView,
                    LsmError,
                >(e),
            },
    {
        let n = self.block_metas.len();
        assert(n == self.metas().len());
        let offset = self.block_metas[block_idx].offset;
        let end = if block_idx + 1 < n {
            self.block_metas[block_idx + 1].offset
        } else {
            self.block_meta_offset
        };
        proof {
            let ms = self.metas();
            assert(ms[block_idx as int] == self.block_metas@[block_idx as int]@);
            if block_idx + 1 < ms.len() {
                assert(ms[block_idx + 1] == self.block_metas@[block_idx + 1]@);
            }
            lemma_index_bounds(ms, self.meta_offset(), block_idx as int);
        }
        let buf = vstd::slice::slice_subrange(self.file.bytes(), offset, end);
        match Block::decode(buf) {
            Ok(block) => Ok(Arc::new(block)),
            Err(e) => Err(e),
        }
    }

    /// The block to look in for `key`, as the index says.
    pub closed spec fn block_index(&self, key: Seq<u8>) -> int {
        choose_block(self.metas(), key, self.metas().len() as int)
    }

    /// The block that may hold `key`: the last block whose first key is the
    /// key or sorts before it, found by binary search over the index, and
    /// the first block where there is none.
    pub fn find_block_idx(&self, key: &[u8]) -> (idx: usize)
        requires
            self.metas().len() > 0,
        ensures
            idx == self.block_index(key@),
            idx < self.metas().len(),
            first_keys_sorted(self.metas()) ==> is_block_for(self.metas(), key@, idx as int),
    {
        let ghost ms = self.metas();
        let n = self.block_metas.len();
        let mut left: usize = 0;
        let mut right: usize = n;
        while left < right
            invariant
                left <= right <= n,
                n == self.block_metas@.len(),
                ms == self.metas(),
                first_keys_sorted(ms) ==> forall|j: int|
                    0 <= j < left ==> key_le(#[trigger] ms[j].1, key@),
                first_keys_sorted(ms) ==> forall|j: int|
                    right <= j < n ==> key_lt(key@, #[trigger] ms[j].1),
                walked(ms, key@, 0, n as int, left as int, right as int),
            decreases right - left,
        {
            let mid = left + (right - left) / 2;
            assert(ms[mid as int] == self.block_metas@[mid as int]@);
            let goes_right = compare_keys(self.block_metas[mid].first_key.as_slice(), key)
                != KeyOrder::Greater;
            proof {
                crate::key::lemma_key_le_not_gt(ms[mid as int].1, key@);
                if first_keys_sorted(ms) {
                    if goes_right {
                        assert forall|j: int| 0 <= j < mid + 1 implies key_le(
                            #[trigger] ms[j].1,
                            key@,
                        ) by {
                            if j < mid {
                                lemma_key_lt_le(ms[j].1, ms[mid as int].1, key@);
                            }
                        }
                    } else {
                        assert forall|j: int| mid <= j < n implies key_lt(
                            key@,
                            #[trigger] ms[j].1,
                        ) by {
                            if j > mid {
                                lemma_key_lt_transitive(key@, ms[mid as int].1, ms[j].1);
                            }
                        }
                    }
                }
                lemma_walk_step(ms, key@, 0, n as int, left as int, right as int);
            }
            if goes_right {
                left = mid + 1;
            } else {
                right = mid;
            }
        }
        proof {
            lemma_walk_done(ms, key@, 0, n as int, left as int);
        }
        if left == 0 {
            0
        } else {
            left - 1
        }
    }

    /// The number of blocks.
    pub fn num_of_blocks(&self) -> (n: usize)
        ensures
            n == self.metas().len(),
    {
        self.block_metas.len()
    }
}

/// The hash of a key that the bloom filter of a table is built over.
pub uninterp spec fn xxh3_64(key: Seq<u8>) -> u64;

/// Calls `xxhash_rust::xxh3::xxh3_64`, the 64-bit XXH3 hash with the
/// default seed and secret. It depends on the bytes alone.
#[verifier::external_body]
fn xxh3_64_of(key: &[u8]) -> (h: u64)
    ensures
        h == xxh3_64(key@),
{
    xxhash_rust::xxh3::xxh3_64(key)
}

/// The hash of a key for the bloom filter.
pub fn hash_key(key: &[u8]) -> (h: u64)
    ensures
        h == xxh3_64(key@),
{
    xxh3_64_of(key)
}

/// Where the binary search for `key` over the metas from `left` to `right`
/// ends: at each step it looks at the middle and goes right of it where the
/// first key there is the key or sorts before it.
pub open spec fn search_end(ms: Seq<(usize, Seq<u8>)>, key: Seq<u8>, left: int, right: int) -> int
    decreases right - left,
{
    if left >= right {
        left
    } else {
        let mid = left + (right - left) / 2;
        if key_le(ms[mid].1, key) {
            search_end(ms, key, mid + 1, right)
        } else {
            search_end(ms, key, left, mid)
        }
    }
}

/// The block that the search over the first `n` metas gives for `key`.
pub open spec fn choose_block(ms: Seq<(usize, Seq<u8>)>, key: Seq<u8>, n: int) -> int {
    let end = search_end(ms, key, 0, n);
    if end == 0 {
        0
    } else {
        end - 1
    }
}

/// The search from `from` to `to` has come to `left` and `right` and ends
/// where the search from there ends.
pub open spec fn walked(
    ms: Seq<(usize, Seq<u8>)>,
    key: Seq<u8>,
    from: int,
    to: int,
    left: int,
    right: int,
) -> bool {
    search_end(ms, key, from, to) == search_end(ms, key, left, right)
}

proof fn lemma_walk_step(
    ms: Seq<(usize, Seq<u8>)>,
    key: Seq<u8>,
    from: int,
    to: int,
    left: int,
    right: int,
)
    requires
        walked(ms, key, from, to, left, right),
        left < right,
    ensures
        ({
            let mid = left + (right - left) / 2;
            if key_le(ms[mid].1, key) {
                walked(ms, key, from, to, mid + 1, right)
            } else {
                walked(ms, key, from, to, left, mid)
            }
        }),
{
}

proof fn lemma_walk_done(ms: Seq<(usize, Seq<u8>)>, key: Seq<u8>, from: int, to: int, left: int)
    requires
        walked(ms, key, from, to, left, left),
    ensures
        search_end(ms, key, from, to) == left,
{
}

/// In an index whose blocks lie one behind the other, every block lies
/// before the metas and ends behind its start.
pub proof fn lemma_index_bounds(ms: Seq<(usize, Seq<u8>)>, meta_offset: int, i: int)
    requires
        index_ok(ms, meta_offset),
        0 <= i < ms.len(),
    ensures
        ms[i].0 < block_end(ms, meta_offset, i) <= meta_offset,
{
    if i + 1 < ms.len() {
        assert(ms[i].0 < ms[i + 1].0);
        if i + 1 < ms.len() - 1 {
            assert(ms[i + 1].0 < ms[ms.len() - 1].0);
        }
    } else {
        assert(ms[i] == ms.last());
    }
}

} // verus!
