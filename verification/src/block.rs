//! Blocks: the sorted pages that a table is made of.
//!
//! A block holds entries back to back, each as `| u16 klen | key | u16 vlen |
//! value |`, and the offset at which each entry starts. On disk it is
//! `| u16 count | count x u16 offset | entries | u32 crc |` inside a codec
//! envelope.

pub mod builder;
pub mod compress;
pub mod iterator;

pub use builder::{BlockBuilder, Entry};
pub use compress::CompressOptions;
pub use iterator::BlockIterator;

use crate::checksum::{calculate_checksum, check_checksum, crc32};
use crate::endian::{
    get_u16, get_u32, lemma_u16_round_trip, lemma_u32_round_trip, put_u16, put_u32, put_slice,
    u16_at, u16_be, u32_at, u32_be,
};
use crate::error::LsmError;
use compress::{framed, snappy_accepts, unframed};
use vstd::prelude::*;

verus! {

/// Number of bytes of a `u16` in the block format.
pub const SIZEOF_U16: usize = 2;

/// The most bytes of entries that a block holds.
pub const MAX_BLOCK_DATA: usize = 0x4_0000;

/// The most bytes that a block takes in a table without a codec or with
/// Snappy.
pub const MAX_BLOCK_BYTES: usize = 0x8_0000;

/// An entry starts at `off` in `data` and ends inside it.
pub open spec fn entry_fits(data: Seq<u8>, off: int) -> bool {
    &&& 0 <= off
    &&& off + 2 <= data.len()
    &&& off + 2 + u16_at(data, off) + 2 <= data.len()
    &&& entry_end(data, off) <= data.len()
}

/// An entry with a key starts at `off` in `data` and ends inside it.
pub open spec fn keyed_entry_at(data: Seq<u8>, off: int) -> bool {
    entry_fits(data, off) && u16_at(data, off) > 0
}

/// The position just after the entry that starts at `off`.
pub open spec fn entry_end(data: Seq<u8>, off: int) -> int {
    off + 4 + u16_at(data, off) + u16_at(data, off + 2 + u16_at(data, off))
}

/// The key of the entry that starts at `off`.
pub open spec fn key_at(data: Seq<u8>, off: int) -> Seq<u8> {
    data.subrange(off + 2, off + 2 + u16_at(data, off))
}

/// The value of the entry that starts at `off`.
pub open spec fn value_at(data: Seq<u8>, off: int) -> Seq<u8> {
    data.subrange(off + 4 + u16_at(data, off), entry_end(data, off))
}

/// The bytes of one entry.
pub open spec fn encoded_entry(key: Seq<u8>, value: Seq<u8>) -> Seq<u8> {
    u16_be(key.len() as u16) + key + u16_be(value.len() as u16) + value
}

/// An entry that was appended to `data` reads back as it was written, and
/// what stood before it reads as before.
pub proof fn lemma_entry_appended(data: Seq<u8>, key: Seq<u8>, value: Seq<u8>)
    requires
        key.len() <= 0xFFFF,
        value.len() <= 0xFFFF,
    ensures
        ({
            let grown = data + encoded_entry(key, value);
            &&& grown.len() == data.len() + 4 + key.len() + value.len()
            &&& entry_fits(grown, data.len() as int)
            &&& entry_end(grown, data.len() as int) == grown.len()
            &&& key_at(grown, data.len() as int) == key
            &&& value_at(grown, data.len() as int) == value
            &&& forall|off: int| #[trigger]
                entry_fits(data, off) ==> entry_fits(grown, off) && key_at(grown, off) == key_at(
                    data,
                    off,
                ) && value_at(grown, off) == value_at(data, off)
        }),
{
    let grown = data + encoded_entry(key, value);
    let n = data.len() as int;
    let kl = key.len() as u16;
    let vl = value.len() as u16;
    lemma_u16_round_trip(data, kl, key + u16_be(vl) + value);
    lemma_u16_round_trip(data + u16_be(kl) + key, vl, value);
    assert(grown =~= data + u16_be(kl) + (key + u16_be(vl) + value));
    assert(grown =~= (data + u16_be(kl) + key) + u16_be(vl) + value);
    assert(u16_at(grown, n) == kl);
    assert(u16_at(grown, n + 2 + kl) == vl);
    assert(key_at(grown, n) =~= key);
    assert(value_at(grown, n) =~= value);
    assert forall|off: int| #[trigger] entry_fits(data, off) implies entry_fits(grown, off)
        && key_at(grown, off) == key_at(data, off) && value_at(grown, off) == value_at(
        data,
        off,
    ) by {
        let k = u16_at(data, off);
        assert(grown[off] == data[off]);
        assert(grown[off + 1] == data[off + 1]);
        assert(u16_at(grown, off) == k);
        assert(grown[off + 2 + k] == data[off + 2 + k]);
        assert(grown[off + 2 + k + 1] == data[off + 2 + k + 1]);
        assert(key_at(grown, off) =~= key_at(data, off));
        assert(value_at(grown, off) =~= value_at(data, off));
    }
}

/// What a block is: the bytes of its entries and where each entry starts.
pub struct BlockView {
    pub data: Seq<u8>,
    pub offsets: Seq<u16>,
}

impl BlockView {
    /// Every offset is the start of an entry with a key, there is at least
    /// one entry, and the counts fit the format.
    pub open spec fn wf(self) -> bool {
        &&& 0 < self.offsets.len() <= 0xFFFF
        &&& self.data.len() <= MAX_BLOCK_DATA
        &&& forall|i: int|
            0 <= i < self.offsets.len() ==> #[trigger] keyed_entry_at(
                self.data,
                self.offsets[i] as int,
            )
    }

    /// The key of entry `i`.
    pub open spec fn key(self, i: int) -> Seq<u8> {
        key_at(self.data, self.offsets[i] as int)
    }

    /// The value of entry `i`.
    pub open spec fn value(self, i: int) -> Seq<u8> {
        value_at(self.data, self.offsets[i] as int)
    }

    /// The entries in the order of the offsets.
    pub open spec fn entries(self) -> Seq<(Seq<u8>, Seq<u8>)> {
        Seq::new(self.offsets.len(), |i: int| (self.key(i), self.value(i)))
    }
}

/// Every offset of `v` is the start of an entry with a key.
pub open spec fn all_keyed(v: BlockView) -> bool {
    forall|i: int|
        0 <= i < v.offsets.len() ==> #[trigger] keyed_entry_at(v.data, v.offsets[i] as int)
}

/// The block `v` with one more entry behind its bytes.
pub open spec fn with_entry(v: BlockView, key: Seq<u8>, value: Seq<u8>) -> BlockView {
    BlockView {
        data: v.data + encoded_entry(key, value),
        offsets: v.offsets.push(v.data.len() as u16),
    }
}

/// An entry that is appended to a block becomes its last entry and leaves
/// the others as they were.
pub proof fn lemma_with_entry(v: BlockView, key: Seq<u8>, value: Seq<u8>)
    requires
        all_keyed(v),
        v.data.len() <= 0xFFFF,
        0 < key.len() <= 0xFFFF,
        value.len() <= 0xFFFF,
    ensures
        all_keyed(with_entry(v, key, value)),
        with_entry(v, key, value).entries() == v.entries().push((key, value)),
{
    let w = with_entry(v, key, value);
    let n = v.offsets.len() as int;
    lemma_entry_appended(v.data, key, value);
    assert forall|i: int| 0 <= i < w.offsets.len() implies #[trigger] keyed_entry_at(
        w.data,
        w.offsets[i] as int,
    ) by {
        if i < n {
            let off = v.offsets[i] as int;
            assert(keyed_entry_at(v.data, off));
            assert(entry_fits(v.data, off));
            assert(w.data[off] == v.data[off]);
            assert(w.data[off + 1] == v.data[off + 1]);
        }
    }
    assert forall|i: int| 0 <= i < w.offsets.len() implies #[trigger] w.entries()[i]
        == v.entries().push((key, value))[i] by {
        if i < n {
            assert(keyed_entry_at(v.data, v.offsets[i] as int));
            assert(entry_fits(v.data, v.offsets[i] as int));
        }
    }
    assert(w.entries() =~= v.entries().push((key, value)));
}

/// The offsets as the format stores them: two bytes each, big-endian.
pub open spec fn offsets_be(offsets: Seq<u16>) -> Seq<u8>
    decreases offsets.len(),
{
    if offsets.len() == 0 {
        Seq::empty()
    } else {
        offsets_be(offsets.drop_last()) + u16_be(offsets.last())
    }
}

/// The stored offsets take two bytes each and read back as they were.
pub proof fn lemma_offsets_be(offsets: Seq<u16>)
    ensures
        offsets_be(offsets).len() == 2 * offsets.len(),
        forall|i: int|
            0 <= i < offsets.len() ==> #[trigger] u16_at(offsets_be(offsets), 2 * i)
                == offsets[i],
    decreases offsets.len(),
{
    if offsets.len() > 0 {
        let init = offsets.drop_last();
        lemma_offsets_be(init);
        lemma_u16_round_trip(offsets_be(init), offsets.last(), Seq::empty());
        assert(offsets_be(offsets) =~= offsets_be(init) + u16_be(offsets.last()) + Seq::empty());
        assert forall|i: int| 0 <= i < offsets.len() implies #[trigger] u16_at(
            offsets_be(offsets),
            2 * i,
        ) == offsets[i] by {
            if i < init.len() {
                assert(u16_at(offsets_be(init), 2 * i) == init[i]);
                assert(offsets_be(offsets)[2 * i] == offsets_be(init)[2 * i]);
                assert(offsets_be(offsets)[2 * i + 1] == offsets_be(init)[2 * i + 1]);
            }
        }
    }
}

/// The part of a stored block that the checksum covers.
pub open spec fn block_body(v: BlockView) -> Seq<u8> {
    u16_be(v.offsets.len() as u16) + offsets_be(v.offsets) + v.data
}

/// A stored block before the codec envelope: the body and its checksum.
pub open spec fn block_raw(v: BlockView) -> Seq<u8> {
    block_body(v) + u32_be(crc32(block_body(v)))
}

/// What the body of a stored block holds, if it is well formed.
pub open spec fn body_parsed(body: Seq<u8>) -> Result<BlockView, LsmError> {
    if body.len() < 2 {
        Err(LsmError::Truncated)
    } else {
        let count = u16_at(body, 0) as int;
        if body.len() < 2 + 2 * count {
            Err(LsmError::Truncated)
        } else {
            let v = BlockView {
                data: body.subrange(2 + 2 * count, body.len() as int),
                offsets: Seq::new(count as nat, |i: int| u16_at(body, 2 + 2 * i)),
            };
            if v.wf() {
                Ok(v)
            } else {
                Err(LsmError::Truncated)
            }
        }
    }
}

/// What a stored block holds, once out of its envelope.
pub open spec fn raw_parsed(raw: Seq<u8>) -> Result<BlockView, LsmError> {
    if raw.len() < 4 {
        Err(LsmError::Truncated)
    } else {
        let body = raw.subrange(0, raw.len() - 4);
        let stored = u32_at(raw, raw.len() - 4);
        if crc32(body) != stored {
            Err(LsmError::ChecksumMismatch { expected: stored, actual: crc32(body) })
        } else {
            body_parsed(body)
        }
    }
}

/// What the bytes of a block on disk hold.
pub open spec fn block_decoded(bytes: Seq<u8>) -> Result<BlockView, LsmError> {
    match unframed(bytes) {
        Ok(raw) => raw_parsed(raw),
        Err(e) => Err(e),
    }
}

/// A well-formed block, written out and read again, is the same block.
pub proof fn lemma_raw_round_trip(v: BlockView)
    requires
        v.wf(),
    ensures
        raw_parsed(block_raw(v)) == Ok::<BlockView, LsmError>(v),
{
    let body = block_body(v);
    let raw = block_raw(v);
    let count = v.offsets.len() as int;
    lemma_offsets_be(v.offsets);
    lemma_u32_round_trip(body, crc32(body), Seq::empty());
    assert(raw =~= body + u32_be(crc32(body)) + Seq::empty());
    assert(raw.subrange(0, raw.len() - 4) =~= body);
    lemma_u16_round_trip(Seq::empty(), count as u16, offsets_be(v.offsets) + v.data);
    assert(body =~= Seq::empty() + u16_be(count as u16) + (offsets_be(v.offsets) + v.data));
    assert(u16_at(body, 0) == count);
    let parsed = BlockView {
        data: body.subrange(2 + 2 * count, body.len() as int),
        offsets: Seq::new(count as nat, |i: int| u16_at(body, 2 + 2 * i)),
    };
    assert(parsed.data =~= v.data);
    assert forall|i: int| 0 <= i < count implies parsed.offsets[i] == v.offsets[i] by {
        assert(u16_at(offsets_be(v.offsets), 2 * i) == v.offsets[i]);
        assert(body[2 + 2 * i] == offsets_be(v.offsets)[2 * i]);
        assert(body[2 + 2 * i + 1] == offsets_be(v.offsets)[2 * i + 1]);
    }
    assert(parsed.offsets =~= v.offsets);
}

/// A sorted page of entries: the smallest unit of reading and caching.
#[derive(Debug)]
pub struct Block {
    data: Vec<u8>,
    offsets: Vec<u16>,
}

impl View for Block {
    type V = BlockView;

    closed spec fn view(&self) -> BlockView {
        BlockView { data: self.data@, offsets: self.offsets@ }
    }
}

impl Block {
    /// The block is well formed.
    pub open spec fn wf(&self) -> bool {
        self@.wf()
    }

    /// The entries of the block.
    pub open spec fn entries(&self) -> Seq<(Seq<u8>, Seq<u8>)> {
        self@.entries()
    }

    /// Makes a block of the bytes of its entries and their offsets.
    pub fn from_parts(data: Vec<u8>, offsets: Vec<u16>) -> (block: Self)
        requires
            (BlockView { data: data@, offsets: offsets@ }).wf(),
        ensures
            block@ == (BlockView { data: data@, offsets: offsets@ }),
            block.wf(),
    {
        Block { data, offsets }
    }

    /// The bytes of the entries.
    pub fn data(&self) -> (data: &[u8])
        ensures
            data@ == self@.data,
    {
        self.data.as_slice()
    }

    /// The number of entries.
    pub fn len(&self) -> (n: usize)
        ensures
            n == self@.offsets.len(),
    {
        self.offsets.len()
    }

    /// Where entry `i` starts.
    pub fn offset(&self, i: usize) -> (off: u16)
        requires
            i < self@.offsets.len(),
        ensures
            off == self@.offsets[i as int],
    {
        self.offsets[i]
    }

    /// The key of entry `i`.
    pub fn key(&self, i: usize) -> (key: &[u8])
        requires
            self.wf(),
            i < self@.offsets.len(),
        ensures
            key@ == self@.key(i as int),
            key@.len() > 0,
    {
        let off = self.offsets[i] as usize;
        assert(keyed_entry_at(self@.data, self@.offsets[i as int] as int));
        let klen = get_u16(self.data.as_slice(), off) as usize;
        vstd::slice::slice_subrange(self.data.as_slice(), off + 2, off + 2 + klen)
    }

    /// The value of entry `i`.
    pub fn value(&self, i: usize) -> (value: &[u8])
        requires
            self.wf(),
            i < self@.offsets.len(),
        ensures
            value@ == self@.value(i as int),
    {
        let off = self.offsets[i] as usize;
        assert(keyed_entry_at(self@.data, self@.offsets[i as int] as int));
        let klen = get_u16(self.data.as_slice(), off) as usize;
        let vlen = get_u16(self.data.as_slice(), off + 2 + klen) as usize;
        vstd::slice::slice_subrange(
            self.data.as_slice(),
            off + 4 + klen,
            off + 4 + klen + vlen,
        )
    }

    /// The size of the block before checksum and envelope.
    pub fn uncompress_size(&self) -> (n: usize)
        requires
            self.wf(),
        ensures
            n == SIZEOF_U16 + SIZEOF_U16 * self@.offsets.len() + self@.data.len(),
    {
        SIZEOF_U16 + SIZEOF_U16 * self.offsets.len() + self.data.len()
    }

    /// The bytes of the block as a table stores it, under the codec `opt`.
    ///
    /// Succeeds with every codec but `Unkown`, unless LZ4 fails; what it
    /// gives decodes to this block again, and is no longer than
    /// `MAX_BLOCK_BYTES` without a codec and with Snappy.
    pub fn encode(&self, compress_option: CompressOptions) -> (r: Result<Vec<u8>, LsmError>)
        requires
            self.wf(),
        ensures
            match r {
                Ok(out) => framed(block_raw(self@), compress_option) == Ok::<Seq<u8>, LsmError>(
                    out@,
                ) && block_decoded(out@) == Ok::<BlockView, LsmError>(self@),
                Err(e) => framed(block_raw(self@), compress_option) == Err::<Seq<u8>, LsmError>(
                    e,
                ),
            },
            compress_option == CompressOptions::Uncompress || compress_option
                == CompressOptions::Snappy ==> r is Ok && r->Ok_0@.len() <= MAX_BLOCK_BYTES,
            r matches Ok(out) ==> out@.len() > 0,
    {
        let num_element = self.offsets.len();
        let mut buf: Vec<u8> = Vec::with_capacity(self.uncompress_size());
        put_u16(&mut buf, num_element as u16);
        let mut i: usize = 0;
        while i < num_element
            invariant
                i <= num_element == self.offsets@.len(),
                buf@ == u16_be(num_element as u16) + offsets_be(self.offsets@.subrange(0, i as int)),
            decreases num_element - i,
        {
            put_u16(&mut buf, self.offsets[i]);
            proof {
                let next = self.offsets@.subrange(0, i + 1);
                assert(next.drop_last() =~= self.offsets@.subrange(0, i as int));
                assert(buf@ =~= u16_be(num_element as u16) + offsets_be(next));
            }
            i += 1;
        }
        assert(self.offsets@.subrange(0, num_element as int) =~= self.offsets@);
        put_slice(&mut buf, self.data.as_slice());
        assert(buf@ == block_body(self@));
        let checksum = calculate_checksum(buf.as_slice());
        put_u32(&mut buf, checksum);
        assert(buf@ == block_raw(self@));
        proof {
            lemma_raw_round_trip(self@);
            lemma_offsets_be(self.offsets@);
            assert(snappy_accepts(buf@.len()));
        }
        compress::encode(buf.as_slice(), compress_option)
    }

    /// Reads a block out of the bytes that a table stores for it.
    ///
    /// Fails with the envelope's error where the envelope does not open,
    /// with `ChecksumMismatch` where the checksum does not fit, and with
    /// `Truncated` where the bytes are too few, an offset points at no whole
    /// entry, a key is empty or there is no entry.
    pub fn decode(data: &[u8]) -> (r: Result<Self, LsmError>)
        ensures
            match r {
                Ok(block) => block_decoded(data@) == Ok::<BlockView, LsmError>(block@)
                    && block.wf(),
                Err(e) => block_decoded(data@) == Err::<BlockView, LsmError>(e),
            },
    {
        let raw = match compress::decode(data) {
            Ok(raw) => raw,
            Err(e) => { return Err(e); },
        };
        let n = raw.len();
        if n < 4 {
            return Err(LsmError::Truncated);
        }
        let body = vstd::slice::slice_subrange(raw.as_slice(), 0, n - 4);
        let stored = get_u32(raw.as_slice(), n - 4);
        let actual = calculate_checksum(body);
        match check_checksum(actual, stored) {
            Ok(()) => {},
            Err(e) => { return Err(e); },
        }
        Self::parse_body(body)
    }

    /// Reads a block out of the part of its bytes that the checksum covers.
    pub fn parse_body(body: &[u8]) -> (r: Result<Self, LsmError>)
        ensures
            match r {
                Ok(block) => body_parsed(body@) == Ok::<BlockView, LsmError>(block@)
                    && block.wf(),
                Err(e) => body_parsed(body@) == Err::<BlockView, LsmError>(e),
            },
    {
        let m = body.len();
        if m < 2 {
            return Err(LsmError::Truncated);
        }
        let count = get_u16(body, 0) as usize;
        if (m - 2) / 2 < count {
            return Err(LsmError::Truncated);
        }
        let start = 2 + 2 * count;
        let data = crate::endian::copy_range(body, start, m);
        let ghost view = BlockView {
            data: body@.subrange(2 + 2 * count, m as int),
            offsets: Seq::new(count as nat, |i: int| u16_at(body@, 2 + 2 * i)),
        };
        if count == 0 || data.len() > MAX_BLOCK_DATA {
            return Err(LsmError::Truncated);
        }
        assert(body_parsed(body@) == if view.wf() {
            Ok::<BlockView, LsmError>(view)
        } else {
            Err::<BlockView, LsmError>(LsmError::Truncated)
        });
        let mut offsets: Vec<u16> = Vec::with_capacity(count);
        let mut i: usize = 0;
        while i < count
            invariant
                i <= count,
                0 < count <= 0xFFFF,
                view.data.len() <= MAX_BLOCK_DATA,
                body_parsed(body@) == if view.wf() {
                    Ok::<BlockView, LsmError>(view)
                } else {
                    Err::<BlockView, LsmError>(LsmError::Truncated)
                },
                2 + 2 * count <= m == body@.len(),
                data@ == view.data,
                view.offsets.len() == count,
                forall|j: int| 0 <= j < count ==> view.offsets[j] == u16_at(body@, 2 + 2 * j),
                offsets@ == view.offsets.subrange(0, i as int),
                forall|j: int|
                    0 <= j < i ==> #[trigger] keyed_entry_at(view.data, view.offsets[j] as int),
            decreases count - i,
        {
            let off = get_u16(body, 2 + 2 * i);
            assert(view.offsets[i as int] == off);
            if !Self::entry_ok(data.as_slice(), off as usize) {
                assert(!keyed_entry_at(view.data, view.offsets[i as int] as int));
                return Err(LsmError::Truncated);
            }
            assert(keyed_entry_at(view.data, view.offsets[i as int] as int));
            offsets.push(off);
            i += 1;
            assert(offsets@ =~= view.offsets.subrange(0, i as int));
        }
        assert(offsets@ =~= view.offsets);
        assert(view.wf());
        Ok(Block { data, offsets })
    }

    /// Whether a whole entry with a key starts at `off` in `data`.
    fn entry_ok(data: &[u8], off: usize) -> (ok: bool)
        requires
            off <= 0xFFFF,
        ensures
            ok == keyed_entry_at(data@, off as int),
    {
        let n = data.len();
        if n < 2 || off > n - 2 {
            return false;
        }
        let klen = get_u16(data, off) as usize;
        if klen == 0 || n - 2 - off < klen + 2 {
            return false;
        }
        let vlen = get_u16(data, off + 2 + klen) as usize;
        n - off - 4 - klen >= vlen
    }
}

} // verus!
