//! Building a table from entries that come in the order of their keys.

use super::file_object::FileObject;
use super::{
    block_bytes, bloom_of, bloom_offset_of, hash_key, index_ok, lemma_metas_round_trip,
    meta_bytes_of, meta_offset_of, metas_encoded, metas_parsed, metas_storable, metas_view,
    trailer_ok, xxh3_64, BlockMeta, SsTable,
};
use crate::block::builder::BlockBuilder;
use crate::block::compress::CompressOptions;
use crate::block::{block_decoded, BlockView, MAX_BLOCK_BYTES, SIZEOF_U16};
use crate::bloom::{filter_may_contain, Bloom};
use crate::endian::{lemma_u32_round_trip, put_slice, put_u32, u16_at, u32_at, u32_be};
use crate::error::LsmError;
use crate::key::entries_sorted;
use crate::opt::LsmOptions;
use vstd::prelude::*;

verus! {

/// The size at which a table is large enough to be closed.
pub const TABLE_CAPACITY: usize = 64 * 1024 * 1024;

/// The most bytes of blocks that a table holds: offsets are stored in 32
/// bits.
pub const MAX_TABLE_DATA: usize = 0x3FFF_FFFF;

/// The most bytes that the index takes for one block.
pub const MAX_INDEX_ENTRY: usize = 0x1_0005;

/// The entries of a sequence of blocks, one block after the other.
pub open spec fn flat_entries(blocks: Seq<BlockView>) -> Seq<(Seq<u8>, Seq<u8>)>
    decreases blocks.len(),
{
    if blocks.len() == 0 {
        Seq::empty()
    } else {
        flat_entries(blocks.drop_last()) + blocks.last().entries()
    }
}

/// The hashes of the keys of the entries.
pub open spec fn hashes_of(e: Seq<(Seq<u8>, Seq<u8>)>) -> Seq<u64> {
    Seq::new(e.len(), |i: int| xxh3_64(e[i].0))
}

/// The bytes `data` are those of the blocks, one behind the other, and the
/// index `ms` says where each starts and with what key.
pub open spec fn layout_ok(data: Seq<u8>, ms: Seq<(usize, Seq<u8>)>, blocks: Seq<BlockView>) -> bool {
    &&& ms.len() == blocks.len()
    &&& ms.len() <= data.len()
    &&& forall|i: int, j: int| 0 <= i < j < ms.len() ==> (#[trigger] ms[i]).0 < (#[trigger] ms[j]).0
    &&& ms.len() > 0 ==> ms.last().0 < data.len()
    &&& forall|i: int|
        0 <= i < ms.len() ==> (#[trigger] block_decoded(block_bytes(data, ms, data.len() as int, i)))
            == Ok::<BlockView, LsmError>(blocks[i]) && ms[i].1 == blocks[i].key(0) && blocks[i].wf()
}

/// The content of a table file: the blocks, the index, where the index
/// starts, the bloom filter if there is one, and where that starts.
pub open spec fn table_content(
    blocks_data: Seq<u8>,
    ms: Seq<(usize, Seq<u8>)>,
    bloom: Option<Seq<u8>>,
) -> Seq<u8> {
    let indexed = blocks_data + metas_encoded(ms) + u32_be(blocks_data.len() as u32);
    match bloom {
        Some(filter) => indexed + filter + u32_be(indexed.len() as u32),
        None => indexed + u32_be(indexed.len() as u32),
    }
}

/// The content of a table file reads back as it was laid out.
pub proof fn lemma_table_content(
    blocks_data: Seq<u8>,
    ms: Seq<(usize, Seq<u8>)>,
    bloom: Option<Seq<u8>>,
)
    requires
        blocks_data.len() + metas_encoded(ms).len() + 4 <= 0xFFFF_FFFF,
        bloom matches Some(filter) ==> filter.len() > 0,
    ensures
        ({
            let content = table_content(blocks_data, ms, bloom);
            &&& trailer_ok(content)
            &&& meta_offset_of(content) == blocks_data.len()
            &&& meta_bytes_of(content) == metas_encoded(ms)
            &&& bloom_of(content) == bloom
            &&& forall|a: int, b: int|
                0 <= a <= b <= blocks_data.len() ==> #[trigger] content.subrange(a, b)
                    == blocks_data.subrange(a, b)
        }),
{
    let content = table_content(blocks_data, ms, bloom);
    let mo = blocks_data.len() as u32;
    let indexed = blocks_data + metas_encoded(ms) + u32_be(mo);
    let bo = indexed.len() as u32;
    let filter = match bloom {
        Some(filter) => filter,
        None => Seq::empty(),
    };
    assert(content =~= indexed + filter + u32_be(bo));
    lemma_u32_round_trip(indexed + filter, bo, Seq::empty());
    assert(content =~= (indexed + filter) + u32_be(bo) + Seq::empty());
    assert(u32_at(content, content.len() - 4) == bo);
    lemma_u32_round_trip(blocks_data + metas_encoded(ms), mo, filter + u32_be(bo));
    assert(content =~= (blocks_data + metas_encoded(ms)) + u32_be(mo) + (filter + u32_be(bo)));
    assert(u32_at(content, bo - 4) == mo);
    assert(meta_bytes_of(content) =~= metas_encoded(ms));
    match bloom {
        Some(f) => {
            assert(content.subrange(bo as int, content.len() - 4) =~= f);
        },
        None => {},
    }
    assert forall|a: int, b: int| 0 <= a <= b <= blocks_data.len() implies #[trigger] content.subrange(
        a,
        b,
    ) == blocks_data.subrange(a, b) by {
        assert(content.subrange(a, b) =~= blocks_data.subrange(a, b));
    }
}

/// The entries of blocks with one more block are those of the blocks, then
/// those of the new block.
pub proof fn lemma_flat_push(blocks: Seq<BlockView>, block: BlockView)
    ensures
        flat_entries(blocks.push(block)) == flat_entries(blocks) + block.entries(),
{
    assert(blocks.push(block).drop_last() =~= blocks);
}

/// How far a table is laid out: the bytes of its closed blocks, the
/// number of these blocks, the bytes that the index takes for them, and the
/// block that is open.
pub struct Layout {
    pub data_len: nat,
    pub blocks: nat,
    pub index_len: nat,
    pub open: BlockView,
}

/// A block without entries.
pub open spec fn no_block() -> BlockView {
    BlockView { data: Seq::empty(), offsets: Seq::empty() }
}

/// A table of which nothing is laid out yet.
pub open spec fn no_layout() -> Layout {
    Layout { data_len: 0, blocks: 0, index_len: 0, open: no_block() }
}

/// Whether an entry still goes into the open block `open` of a table with
/// blocks of `block_size` bytes.
pub open spec fn block_room(open: BlockView, block_size: usize, key: Seq<u8>, value: Seq<u8>) -> bool {
    4 + key.len() + value.len() + open.data.len() + SIZEOF_U16 <= block_size && open.data.len()
        <= 0xFFFF
}

/// The layout after the open block is closed: its bytes under the codec
/// stand behind the blocks, and the index has its first key. Fails as the
/// codec fails, and with `Overflow` where the blocks outgrow the most bytes
/// of a table.
pub open spec fn block_closed(l: Layout, opts: LsmOptions) -> Result<Layout, LsmError> {
    match crate::block::compress::framed(crate::block::block_raw(l.open), opts.compress_option) {
        Err(e) => Err(e),
        Ok(bytes) => if bytes.len() > MAX_TABLE_DATA - l.data_len {
            Err(LsmError::Overflow)
        } else {
            Ok(
                Layout {
                    data_len: l.data_len + bytes.len(),
                    blocks: l.blocks + 1,
                    index_len: l.index_len + 6 + l.open.key(0).len(),
                    open: no_block(),
                },
            )
        },
    }
}

/// The layout after one more entry: it goes into the open block where
/// that has room, and else into a new block behind the closed one. Fails
/// with `Overflow` where the entry goes into no block, and as closing the
/// block fails.
pub open spec fn entry_laid(l: Layout, opts: LsmOptions, key: Seq<u8>, value: Seq<u8>) -> Result<
    Layout,
    LsmError,
> {
    if block_room(l.open, opts.block_size, key, value) {
        Ok(Layout { open: crate::block::with_entry(l.open, key, value), ..l })
    } else if l.open.offsets.len() == 0 {
        Err(LsmError::Overflow)
    } else {
        match block_closed(l, opts) {
            Err(e) => Err(e),
            Ok(closed) => if block_room(no_block(), opts.block_size, key, value) {
                Ok(Layout { open: crate::block::with_entry(no_block(), key, value), ..closed })
            } else {
                Err(LsmError::Overflow)
            },
        }
    }
}

/// Why the table of a layout is not built, if it is not: as closing the
/// open block fails, and with `Overflow` where blocks and index outgrow
/// what 32 bits count.
pub open spec fn build_error(l: Layout, opts: LsmOptions) -> Option<LsmError> {
    let closed = if l.open.offsets.len() == 0 {
        Ok(l)
    } else {
        block_closed(l, opts)
    };
    match closed {
        Err(e) => Some(e),
        Ok(done) => if done.data_len + done.index_len > 0xFFFF_FFFF - 4 {
            Some(LsmError::Overflow)
        } else {
            None
        },
    }
}

/// The layout after the entries from number `from` on, one after the
/// other; fails as the first of them fails that does, and with `Overflow`
/// for an entry without a key or with a part that does not fit its field.
pub open spec fn entries_laid(
    l: Layout,
    opts: LsmOptions,
    entries: Seq<(Seq<u8>, Seq<u8>)>,
    from: int,
) -> Result<Layout, LsmError>
    decreases entries.len() - from,
{
    if from < 0 || from >= entries.len() {
        Ok(l)
    } else if entries[from].0.len() == 0 || entries[from].0.len() > 0xFFFF || entries[from].1.len()
        > 0xFFFF {
        Err(LsmError::Overflow)
    } else {
        match entry_laid(l, opts, entries[from].0, entries[from].1) {
            Err(e) => Err(e),
            Ok(next) => entries_laid(next, opts, entries, from + 1),
        }
    }
}

/// Collects entries into blocks, and the blocks into the content of a
/// table file.
pub struct SsTableBuilder {
    meta: Vec<BlockMeta>,
    data: Vec<u8>,
    block_builder: BlockBuilder,
    base_key: Vec<u8>,
    opt: LsmOptions,
    key_hashs: Option<Vec<u64>>,
    blocks: Ghost<Seq<BlockView>>,
}

impl SsTableBuilder {
    /// The options that the table is built with.
    pub closed spec fn options(&self) -> LsmOptions {
        self.opt
    }

    /// The entries taken so far.
    pub closed spec fn entries(&self) -> Seq<(Seq<u8>, Seq<u8>)> {
        flat_entries(self.blocks@) + self.block_builder.entries()
    }

    /// The layout has the bytes and the number of the closed blocks.
    pub proof fn lemma_layout(&self)
        ensures
            self.layout().data_len == self.data_len(),
            self.layout().blocks == self.block_count(),
    {
    }

    /// How far the table is laid out.
    pub closed spec fn layout(&self) -> Layout {
        Layout {
            data_len: self.data@.len(),
            blocks: self.meta@.len(),
            index_len: metas_encoded(metas_view(self.meta@)).len(),
            open: self.block_builder@,
        }
    }

    /// What holds of every builder: the bytes so far are those of the
    /// blocks that are full, the index says where each of them starts, and
    /// the hashes are those of the keys taken.
    pub closed spec fn wf(&self) -> bool {
        &&& self.block_builder.wf()
        &&& self.block_builder.target_size() == self.opt.block_size
        &&& self.data@.len() <= MAX_TABLE_DATA
        &&& layout_ok(self.data@, metas_view(self.meta@), self.blocks@)
        &&& self.block_builder.entries().len() > 0 ==> self.base_key@
            == self.block_builder.entries()[0].0
        &&& self.block_builder.entries().len() == 0 ==> self.base_key@.len() == 0
        &&& match self.key_hashs {
            Some(hs) => self.opt.has_bloom() && hs@ == hashes_of(self.entries()),
            None => !self.opt.has_bloom(),
        }
    }

    /// Whether an entry of this key and value goes into a block of the
    /// target size.
    pub open spec fn entry_fits(&self, key: Seq<u8>, value: Seq<u8>) -> bool {
        4 + key.len() + value.len() + SIZEOF_U16 <= self.options().block_size
    }

    /// Whether the builder can close one more block: its codec does not
    /// fail, and the bytes of the blocks stay under the most that a table
    /// holds.
    pub open spec fn roomy(&self) -> bool {
        &&& self.options().compress_option == CompressOptions::Uncompress
            || self.options().compress_option == CompressOptions::Snappy
        &&& self.data_len() + MAX_BLOCK_BYTES <= MAX_TABLE_DATA
    }

    /// Whether the builder can close its table: it can close one more
    /// block, and the blocks and the index fit in a file.
    pub open spec fn has_room(&self) -> bool {
        &&& self.roomy()
        &&& self.data_len() + MAX_BLOCK_BYTES + (self.block_count() + 1) * MAX_INDEX_ENTRY + 4
            <= 0xFFFF_FFFF
    }

    /// A builder of a table, with no entry yet.
    pub fn new(opt: LsmOptions) -> (builder: Self)
        ensures
            builder.wf(),
            builder.options() == opt,
            builder.entries() == Seq::<(Seq<u8>, Seq<u8>)>::empty(),
            builder.data_len() == 0,
            builder.block_count() == 0,
            builder.layout() == no_layout(),
    {
        let key_hashs: Option<Vec<u64>> = if opt.bloom_millibits_per_key > 0 {
            Some(Vec::new())
        } else {
            None
        };
        let builder = Self {
            meta: Vec::new(),
            data: Vec::new(),
            block_builder: BlockBuilder::new(opt.block_size),
            base_key: Vec::new(),
            opt,
            key_hashs,
            blocks: Ghost(Seq::empty()),
        };
        assert(builder.entries() =~= Seq::<(Seq<u8>, Seq<u8>)>::empty());
        assert(hashes_of(builder.entries()) =~= Seq::<u64>::empty());
        builder
    }

    /// The options that the table is built with.
    pub fn opt(&self) -> (opt: &LsmOptions)
        ensures
            *opt == self.options(),
    {
        &self.opt
    }

    /// Takes one more entry; its key is to sort after those taken before.
    ///
    /// Where the current block is full it is closed and a new one begun.
    /// Fails with `Overflow` where the entry is too large for a block of
    /// the target size or the table has no room for another block, and with
    /// the error of the codec where a block does not encode; it succeeds
    /// where the entry goes into a block and the builder has room. After an
    /// error the builder is not to be used again.
    pub fn add(&mut self, key: &[u8], value: &[u8]) -> (r: Result<(), LsmError>)
        requires
            old(self).wf(),
            0 < key@.len() <= 0xFFFF,
            value@.len() <= 0xFFFF,
        ensures
            match r {
                Ok(()) => {
                    &&& final(self).wf()
                    &&& final(self).options() == old(self).options()
                    &&& final(self).entries() == old(self).entries().push((key@, value@))
                    &&& old(self).block_count() <= final(self).block_count()
                    &&& final(self).block_count() <= old(self).block_count() + 1
                    &&& old(self).data_len() <= final(self).data_len()
                    &&& old(self).roomy() ==> final(self).data_len() <= old(self).data_len()
                        + MAX_BLOCK_BYTES
                },
                Err(e) => e == LsmError::Overflow || e == LsmError::Compression || e
                    == LsmError::UnknownCodec,
            },
            !old(self).entry_fits(key@, value@) ==> r is Err,
            old(self).entry_fits(key@, value@) && old(self).roomy() ==> r is Ok,
            match entry_laid(old(self).layout(), old(self).options(), key@, value@) {
                Ok(l) => r is Ok && final(self).layout() == l,
                Err(e) => r == Err::<(), LsmError>(e),
            },
    {
        proof {
            self.block_builder.lemma_size();
        }
        let ghost before = self.entries();
        let was_empty = self.block_builder.is_empty();
        if !self.block_builder.add(key, value) {
            if was_empty {
                return Err(LsmError::Overflow);
            }
            match self.block_build() {
                Ok(()) => {},
                Err(e) => { return Err(e); },
            }
            if !self.block_builder.add(key, value) {
                return Err(LsmError::Overflow);
            }
            assert(self.block_builder.entries() =~= seq![(key@, value@)]);
            assert(self.entries() =~= before.push((key@, value@)));
            self.base_key = vstd::slice::slice_to_vec(key);
        } else {
            assert(self.entries() =~= before.push((key@, value@)));
            if was_empty {
                assert(self.block_builder.entries() =~= seq![(key@, value@)]);
                self.base_key = vstd::slice::slice_to_vec(key);
            }
        }
        let h = hash_key(key);
        match &mut self.key_hashs {
            Some(hs) => {
                hs.push(h);
                assert(hs@ =~= hashes_of(before.push((key@, value@))));
            },
            None => {},
        }
        Ok(())
    }

    /// Closes the current block: its bytes go behind those of the blocks
    /// before it, and the index gets its offset and first key.
    fn block_build(&mut self) -> (r: Result<(), LsmError>)
        requires
            old(self).wf(),
            old(self).block_builder.entries().len() > 0,
        ensures
            match r {
                Ok(()) => {
                    &&& final(self).wf()
                    &&& final(self).options() == old(self).options()
                    &&& final(self).entries() == old(self).entries()
                    &&& final(self).block_builder.entries().len() == 0
                    &&& final(self).block_builder.size() == 0
                    &&& final(self).blocks@.len() > 0
                    &&& final(self).block_count() == old(self).block_count() + 1
                    &&& old(self).data_len() <= final(self).data_len()
                    &&& old(self).roomy() ==> final(self).data_len() <= old(self).data_len()
                        + MAX_BLOCK_BYTES
                },
                Err(e) => e == LsmError::Overflow || e == LsmError::Compression || e
                    == LsmError::UnknownCodec,
            },
            old(self).roomy() ==> r is Ok,
            match block_closed(old(self).layout(), old(self).options()) {
                Ok(l) => r is Ok && final(self).layout() == l,
                Err(e) => r == Err::<(), LsmError>(e),
            },
    {
        let ghost before = self.entries();
        let ghost old_data = self.data@;
        let ghost old_ms = metas_view(self.meta@);
        let ghost old_blocks = self.blocks@;
        let mut builder = BlockBuilder::new(self.opt.block_size);
        std::mem::swap(&mut self.block_builder, &mut builder);
        let block = builder.build();
        let bytes = match block.encode(self.opt.compress_option) {
            Ok(bytes) => bytes,
            Err(e) => {
                proof {
                    crate::block::compress::lemma_framed_errors(
                        crate::block::block_raw(block@),
                        self.opt.compress_option,
                    );
                }
                return Err(e);
            },
        };
        if bytes.len() == 0 || bytes.len() > MAX_TABLE_DATA - self.data.len() {
            return Err(LsmError::Overflow);
        }
        let mut key: Vec<u8> = Vec::new();
        std::mem::swap(&mut key, &mut self.base_key);
        let offset = self.data.len();
        let ghost first_key = key@;
        self.meta.push(BlockMeta { offset, first_key: key });
        put_slice(&mut self.data, bytes.as_slice());
        proof {
            self.blocks@ = old_blocks.push(block@);
            let ms = metas_view(self.meta@);
            let data = self.data@;
            assert(ms =~= old_ms.push((offset, first_key)));
            lemma_flat_push(old_blocks, block@);
            assert(block@.entries()[0].0 == block@.key(0));
            lemma_layout_push(old_data, old_ms, old_blocks, bytes@, first_key, block@);
            assert(self.entries() =~= before);
            crate::table::lemma_metas_encoded_push(old_ms, (offset, first_key));
            assert(crate::table::meta_encoded((offset, first_key)).len() == 6 + first_key.len());
            assert(first_key == block@.key(0));
            assert(self.block_builder@ == no_block());
            assert(self.layout() == block_closed(old(self).layout(), old(self).options())->Ok_0);
        }
        Ok(())
    }

    /// Whether no entry was taken yet.
    pub fn is_empty(&self) -> (empty: bool)
        requires
            self.wf(),
        ensures
            empty == (self.entries().len() == 0),
    {
        proof {
            if self.blocks@.len() > 0 {
                lemma_flat_nonempty(self.data@, metas_view(self.meta@), self.blocks@);
            }
        }
        self.meta.len() == 0 && self.block_builder.is_empty()
    }

    /// The size of the table so far, roughly.
    pub fn estimated_size(&self) -> (n: usize)
        requires
            self.wf(),
        ensures
            n == self.data_len() + self.block_count() * SIZEOF_U16,
    {
        assert(metas_view(self.meta@).len() == self.meta@.len());
        self.data.len() + self.meta.len() * SIZEOF_U16
    }

    /// The number of bytes of the blocks that are closed.
    pub closed spec fn data_len(&self) -> nat {
        self.data@.len()
    }

    /// The number of blocks that are closed.
    pub closed spec fn block_count(&self) -> nat {
        self.meta@.len()
    }

    /// Whether the table is large enough to be closed.
    pub fn reach_capacity(&self) -> (full: bool)
        requires
            self.wf(),
        ensures
            full == (self.data_len() + self.block_count() * SIZEOF_U16 >= TABLE_CAPACITY),
    {
        self.estimated_size() >= TABLE_CAPACITY
    }

    /// The table of the entries taken, with the id `id`.
    ///
    /// The table holds the entries in the order in which they were taken,
    /// every block of it decodes, and its index has the first key of each
    /// block; so it is intact where the keys came in their order. Its bloom
    /// filter, where it has one with bits, denies none of its keys. Fails
    /// with the error of the codec where the last block does not encode,
    /// and with `Overflow` where the file would outgrow 32 bits; it
    /// succeeds where the builder has room for its last block and for the
    /// index.
    #[verifier::spinoff_prover]
    #[verifier::rlimit(100)]
    pub fn build(self, id: u64) -> (r: Result<SsTable, LsmError>)
        requires
            self.wf(),
            self.entries().len() > 0,
        ensures
            match r {
                Ok(table) => {
                    &&& table.wf()
                    &&& table.id() == id
                    &&& table.readable()
                    &&& table.entries() == self.entries()
                    &&& forall|i: int|
                        0 <= i < table.metas().len() ==> (#[trigger] table.block_entries(i))[0].0
                            == table.metas()[i].1
                    &&& entries_sorted(self.entries()) ==> table.intact()
                    &&& self.options().has_bloom() == table.bloom().is_some()
                    &&& table.bloom_sound()
                },
                Err(e) => e == LsmError::Overflow || e == LsmError::Compression || e
                    == LsmError::UnknownCodec,
            },
            self.has_room() ==> r is Ok,
            match build_error(self.layout(), self.options()) {
                Some(e) => r matches Err(x) && x == e,
                None => r is Ok,
            },
    {
        let ghost entries = self.entries();
        let ghost has_bloom = self.options().has_bloom();
        let (content, Ghost(layout)) = match self.lay_out() {
            Ok(laid) => laid,
            Err(e) => { return Err(e); },
        };
        proof {
            lemma_content_opens(layout.blocks_data, layout.ms, layout.blocks, layout.filter);
        }
        let file = FileObject::from_vec(content);
        let table = match SsTable::open(id, file) {
            Ok(table) => table,
            Err(e) => {
                assert(false);
                return Err(e);
            },
        };
        proof {
            lemma_opened(&table, layout);
            if has_bloom {
                lemma_bloom_bits(self.options(), entries.len());
            }
        }
        Ok(table)
    }

    /// Closes the last block and lays out the content of the table file.
    fn lay_out(self) -> (r: Result<(Vec<u8>, Ghost<TableLayout>), LsmError>)
        requires
            self.wf(),
            self.entries().len() > 0,
        ensures
            match r {
                Ok((content, layout)) => {
                    &&& content@ == table_content(layout@.blocks_data, layout@.ms, layout@.filter)
                    &&& layout_ok(layout@.blocks_data, layout@.ms, layout@.blocks)
                    &&& layout@.ms.len() > 0
                    &&& metas_storable(layout@.ms)
                    &&& layout@.blocks_data.len() + metas_encoded(layout@.ms).len() + 4
                        <= 0xFFFF_FFFF
                    &&& layout@.filter matches Some(f) ==> f.len() > 0
                    &&& flat_entries(layout@.blocks) == self.entries()
                    &&& self.options().has_bloom() == layout@.filter.is_some()
                    &&& layout@.filter matches Some(filter) ==> self.options().bloom_bits(
                        self.entries().len(),
                    ) > 0 ==> forall|i: int|
                        0 <= i < self.entries().len() ==> filter_may_contain(
                            filter,
                            xxh3_64(#[trigger] self.entries()[i].0),
                        )
                },
                Err(e) => e == LsmError::Overflow || e == LsmError::Compression || e
                    == LsmError::UnknownCodec,
            },
            self.has_room() ==> r is Ok,
            match build_error(self.layout(), self.options()) {
                Some(e) => r matches Err(x) && x == e,
                None => r is Ok,
            },
    {
        let ghost entries = self.entries();
        proof {
            self.block_builder.lemma_size();
        }
        let mut this = self;
        if this.block_builder.is_empty() {
            proof {
                assert(this.blocks@.len() > 0) by {
                    if this.blocks@.len() == 0 {
                        assert(this.entries() =~= Seq::empty());
                    }
                }
            }
        } else {
            match this.block_build() {
                Ok(()) => {},
                Err(e) => { return Err(e); },
            }
        }
        assert(this.entries() =~= flat_entries(this.blocks@));
        let ghost blocks = this.blocks@;
        let ghost ms = metas_view(this.meta@);
        let ghost blocks_data = this.data@;
        let offset = this.data.len();
        proof {
            lemma_layout_storable(blocks_data, ms, blocks);
            lemma_metas_len(ms);
        }
        BlockMeta::encode_block_meta(this.meta.as_slice(), &mut this.data);
        if this.data.len() > 0xFFFF_FFFF - 4 {
            return Err(LsmError::Overflow);
        }
        put_u32(&mut this.data, offset as u32);
        let bloom_offset = this.data.len();
        let ghost filter: Option<Seq<u8>> = None;
        match &this.key_hashs {
            Some(hs) => {
                let nbits = this.opt.filter_bits(hs.len());
                let bloom = Bloom::from_keys(hs.as_slice(), nbits, this.opt.bloom_probes);
                proof {
                    filter = Some(bloom@);
                    assert forall|i: int| 0 <= i < entries.len() && nbits > 0 implies filter_may_contain(
                        bloom@,
                        xxh3_64(#[trigger] entries[i].0),
                    ) by {
                        assert(hs@[i] == xxh3_64(entries[i].0));
                    }
                }
                let bytes = bloom.encode();
                put_slice(&mut this.data, bytes.as_slice());
            },
            None => {},
        }
        put_u32(&mut this.data, bloom_offset as u32);
        assert(this.data@ =~= table_content(blocks_data, ms, filter));
        Ok((this.data, Ghost(TableLayout { blocks_data, ms, blocks, filter })))
    }
}

/// A table that was opened from the content of a layout holds the entries
/// of the layout, every block of it decodes, and its index has the first
/// key of each block.
proof fn lemma_opened(table: &SsTable, layout: TableLayout)
    requires
        table.wf(),
        table.data() == table_content(layout.blocks_data, layout.ms, layout.filter),
        layout_ok(layout.blocks_data, layout.ms, layout.blocks),
        layout.ms.len() > 0,
        metas_storable(layout.ms),
        layout.blocks_data.len() + metas_encoded(layout.ms).len() + 4 <= 0xFFFF_FFFF,
        layout.filter matches Some(f) ==> f.len() > 0,
    ensures
        table.readable(),
        table.entries() == flat_entries(layout.blocks),
        table.bloom() == layout.filter,
        forall|i: int|
            0 <= i < table.metas().len() ==> (#[trigger] table.block_entries(i))[0].0
                == table.metas()[i].1,
        entries_sorted(table.entries()) ==> table.intact(),
{
    let ms = layout.ms;
    let blocks = layout.blocks;
    let mo = layout.blocks_data.len() as int;
    lemma_table_content(layout.blocks_data, ms, layout.filter);
    lemma_metas_round_trip(Seq::empty(), ms);
    assert(Seq::<u8>::empty() + metas_encoded(ms) =~= metas_encoded(ms));
    assert(table.metas() == ms);
    assert(table.meta_offset() == mo);
    lemma_regions(table.data(), layout.blocks_data, ms, blocks);
    assert forall|i: int| 0 <= i < blocks.len() implies (#[trigger] block_decoded(table.region(i)))
        == Ok::<BlockView, LsmError>(blocks[i]) by {
        assert(block_decoded(block_bytes(table.data(), ms, mo, i)) == Ok::<BlockView, LsmError>(
            blocks[i],
        ));
    }
    lemma_built(table, blocks);
    assert forall|i: int| 0 <= i < table.metas().len() implies (#[trigger] table.block_entries(i))[0].0
        == table.metas()[i].1 by {
        assert(block_decoded(block_bytes(layout.blocks_data, ms, mo, i)) is Ok);
        assert(table.block_entries(i) == blocks[i].entries());
    }
    if entries_sorted(table.entries()) {
        assert forall|i: int| 0 <= i < table.metas().len() implies (#[trigger] block_decoded(
            table.region(i),
        )) is Ok && table.block_entries(i)[0].0 == table.metas()[i].1 by {
            assert(table.block_entries(i)[0].0 == table.metas()[i].1);
        }
    }
}

/// Options that ask for a bloom filter give it bits as soon as there is a
/// key.
proof fn lemma_bloom_bits(opt: LsmOptions, keys: nat)
    requires
        keys > 0,
        opt.has_bloom(),
    ensures
        opt.bloom_bits(keys) > 0,
{
    assert(keys * opt.bloom_millibits_per_key >= 1) by (nonlinear_arith)
        requires
            keys >= 1,
            opt.bloom_millibits_per_key >= 1,
    ;
}

/// The blocks of a layout have entries.
proof fn lemma_flat_nonempty(data: Seq<u8>, ms: Seq<(usize, Seq<u8>)>, blocks: Seq<BlockView>)
    requires
        layout_ok(data, ms, blocks),
        blocks.len() > 0,
    ensures
        flat_entries(blocks).len() > 0,
{
    let last = blocks.len() - 1;
    assert(block_decoded(block_bytes(data, ms, data.len() as int, last)) is Ok);
    assert(blocks[last].wf());
    assert(blocks.last() == blocks[last]);
}

/// The parts of the content of a table file.
pub ghost struct TableLayout {
    /// The bytes of the blocks.
    pub blocks_data: Seq<u8>,
    /// The index of the blocks.
    pub ms: Seq<(usize, Seq<u8>)>,
    /// What the blocks decode to.
    pub blocks: Seq<BlockView>,
    /// The bloom filter, where there is one.
    pub filter: Option<Seq<u8>>,
}

/// The index takes no more bytes than the most for each of its blocks.
proof fn lemma_metas_len(ms: Seq<(usize, Seq<u8>)>)
    requires
        metas_storable(ms),
    ensures
        metas_encoded(ms).len() <= ms.len() * MAX_INDEX_ENTRY,
    decreases ms.len(),
{
    if ms.len() > 0 {
        let rest = ms.skip(1);
        assert forall|i: int| 0 <= i < rest.len() implies (#[trigger] rest[i]).0 <= 0xFFFF_FFFF
            && rest[i].1.len() <= 0xFFFF by {
            assert(rest[i] == ms[i + 1]);
        }
        lemma_metas_len(rest);
        assert(ms[0].1.len() <= 0xFFFF);
        assert(ms.len() * MAX_INDEX_ENTRY == rest.len() * MAX_INDEX_ENTRY + MAX_INDEX_ENTRY)
            by (nonlinear_arith)
            requires
                ms.len() == rest.len() + 1,
        ;
    }
}

/// The index of a layout fits the fields that store it.
proof fn lemma_layout_storable(data: Seq<u8>, ms: Seq<(usize, Seq<u8>)>, blocks: Seq<BlockView>)
    requires
        layout_ok(data, ms, blocks),
        data.len() <= MAX_TABLE_DATA,
    ensures
        metas_storable(ms),
{
    assert forall|i: int| 0 <= i < ms.len() implies (#[trigger] ms[i]).0 <= 0xFFFF_FFFF
        && ms[i].1.len() <= 0xFFFF by {
        assert(block_decoded(block_bytes(data, ms, data.len() as int, i)) is Ok);
        assert(blocks[i].wf());
        assert(crate::block::keyed_entry_at(blocks[i].data, blocks[i].offsets[0] as int));
        assert(ms[ms.len() - 1] == ms.last());
        if i < ms.len() - 1 {
            assert(ms[i].0 < ms[ms.len() - 1].0);
        }
    }
}

/// The content that is laid out from a layout opens as a table.
proof fn lemma_content_opens(
    blocks_data: Seq<u8>,
    ms: Seq<(usize, Seq<u8>)>,
    blocks: Seq<BlockView>,
    filter: Option<Seq<u8>>,
)
    requires
        layout_ok(blocks_data, ms, blocks),
        ms.len() > 0,
        metas_storable(ms),
        blocks_data.len() + metas_encoded(ms).len() + 4 <= 0xFFFF_FFFF,
        filter matches Some(f) ==> f.len() > 0,
    ensures
        SsTable::open_error(table_content(blocks_data, ms, filter)) is None,
{
    let content = table_content(blocks_data, ms, filter);
    lemma_table_content(blocks_data, ms, filter);
    lemma_metas_round_trip(Seq::empty(), ms);
    assert(Seq::<u8>::empty() + metas_encoded(ms) =~= metas_encoded(ms));
    lemma_regions(content, blocks_data, ms, blocks);
    assert(block_decoded(block_bytes(content, ms, blocks_data.len() as int, ms.len() - 1)) is Ok);
}

/// A table whose blocks decode to `blocks` holds the entries of `blocks`,
/// and its index has the first key of each block where `blocks` has.
proof fn lemma_built(table: &SsTable, blocks: Seq<BlockView>)
    requires
        blocks.len() == table.metas().len(),
        forall|i: int|
            0 <= i < blocks.len() ==> (#[trigger] block_decoded(table.region(i))) == Ok::<
                BlockView,
                LsmError,
            >(blocks[i]),
    ensures
        table.readable(),
        table.entries() == flat_entries(blocks),
        forall|i: int|
            0 <= i < blocks.len() ==> (#[trigger] table.block_entries(i)) == blocks[i].entries(),
{
    let n = blocks.len() as int;
    lemma_built_entries(table, blocks, n);
    table.lemma_entries_split(n);
    assert(table.entries_from(n) =~= Seq::empty());
    assert(blocks.take(n) =~= blocks);
    assert(table.entries() =~= flat_entries(blocks));
    assert forall|i: int| 0 <= i < blocks.len() implies (#[trigger] table.block_entries(i))
        == blocks[i].entries() by {
        assert(block_decoded(table.region(i)) == Ok::<BlockView, LsmError>(blocks[i]));
    }
}

/// A layout with one more block behind it is a layout.
proof fn lemma_layout_push(
    data: Seq<u8>,
    ms: Seq<(usize, Seq<u8>)>,
    blocks: Seq<BlockView>,
    bytes: Seq<u8>,
    first_key: Seq<u8>,
    block: BlockView,
)
    requires
        layout_ok(data, ms, blocks),
        bytes.len() > 0,
        data.len() + bytes.len() <= usize::MAX,
        block_decoded(bytes) == Ok::<BlockView, LsmError>(block),
        block.wf(),
        first_key == block.key(0),
    ensures
        layout_ok(data + bytes, ms.push((data.len() as usize, first_key)), blocks.push(block)),
{
    let grown = data + bytes;
    let ms2 = ms.push((data.len() as usize, first_key));
    let blocks2 = blocks.push(block);
    let n = ms.len() as int;
    assert forall|i: int, j: int| 0 <= i < j < ms2.len() implies (#[trigger] ms2[i]).0 < (
    #[trigger] ms2[j]).0 by {
        if j == n {
            if i < n - 1 {
                assert(ms[i].0 < ms[n - 1].0);
            }
        }
    }
    assert forall|i: int| 0 <= i < ms2.len() implies (#[trigger] block_decoded(
        block_bytes(grown, ms2, grown.len() as int, i),
    )) == Ok::<BlockView, LsmError>(blocks2[i]) && ms2[i].1 == blocks2[i].key(0)
        && blocks2[i].wf() by {
        if i < n {
            assert(block_decoded(block_bytes(data, ms, data.len() as int, i)) == Ok::<
                BlockView,
                LsmError,
            >(blocks[i]));
            if i < n - 1 {
                assert(ms[i].0 < ms[i + 1].0);
                assert(ms[i + 1].0 < ms[n - 1].0 || i + 1 == n - 1);
            }
            assert(block_bytes(grown, ms2, grown.len() as int, i) =~= block_bytes(
                data,
                ms,
                data.len() as int,
                i,
            ));
        } else {
            assert(block_bytes(grown, ms2, grown.len() as int, i) =~= bytes);
        }
    }
}

/// The blocks of a layout lie in the content of the table file as they lie
/// among the bytes of the blocks.
proof fn lemma_regions(
    content: Seq<u8>,
    blocks_data: Seq<u8>,
    ms: Seq<(usize, Seq<u8>)>,
    blocks: Seq<BlockView>,
)
    requires
        layout_ok(blocks_data, ms, blocks),
        ms.len() > 0,
        blocks_data.len() <= content.len(),
        forall|a: int, b: int|
            0 <= a <= b <= blocks_data.len() ==> #[trigger] content.subrange(a, b)
                == blocks_data.subrange(a, b),
    ensures
        index_ok(ms, blocks_data.len() as int),
        forall|i: int|
            0 <= i < ms.len() ==> (#[trigger] block_decoded(
                block_bytes(content, ms, blocks_data.len() as int, i),
            )) == Ok::<BlockView, LsmError>(blocks[i]),
{
    let mo = blocks_data.len() as int;
    assert forall|i: int| 0 <= i < ms.len() implies (#[trigger] block_decoded(
        block_bytes(content, ms, mo, i),
    )) == Ok::<BlockView, LsmError>(blocks[i]) by {
        assert(block_decoded(block_bytes(blocks_data, ms, mo, i)) == Ok::<BlockView, LsmError>(
            blocks[i],
        ));
        super::lemma_index_bounds(ms, mo, i);
        let a = ms[i].0 as int;
        let b = super::block_end(ms, mo, i);
        assert(content.subrange(a, b) == blocks_data.subrange(a, b));
    }
}

/// The entries of the first `k` blocks of a table whose blocks decode to
/// `blocks` are the entries of the first `k` of `blocks`.
proof fn lemma_built_entries(table: &SsTable, blocks: Seq<BlockView>, k: int)
    requires
        0 <= k <= blocks.len() == table.metas().len(),
        forall|i: int|
            0 <= i < blocks.len() ==> (#[trigger] block_decoded(table.region(i))) == Ok::<
                BlockView,
                LsmError,
            >(blocks[i]),
    ensures
        table.entries_before(k) == flat_entries(blocks.take(k)),
    decreases k,
{
    if k > 0 {
        lemma_built_entries(table, blocks, k - 1);
        assert(blocks.take(k).drop_last() =~= blocks.take(k - 1));
        assert(block_decoded(table.region(k - 1)) == Ok::<BlockView, LsmError>(blocks[k - 1]));
    } else {
        assert(blocks.take(0) =~= Seq::empty());
    }
}

} // verus!
