//! Building a block entry by entry.

use super::{
    all_keyed, encoded_entry, lemma_with_entry, with_entry, Block, BlockView, MAX_BLOCK_DATA,
    SIZEOF_U16,
};
use crate::endian::{put_slice, put_u16};
use vstd::prelude::*;

verus! {

/// One key with its value; an empty value marks the key as deleted.
pub struct Entry {
    key: Vec<u8>,
    value: Vec<u8>,
}

impl View for Entry {
    type V = (Seq<u8>, Seq<u8>);

    closed spec fn view(&self) -> (Seq<u8>, Seq<u8>) {
        (self.key@, self.value@)
    }
}

impl Entry {
    /// An entry of a copy of the key and a copy of the value.
    pub fn new(key: &[u8], value: &[u8]) -> (entry: Self)
        ensures
            entry@ == (key@, value@),
    {
        Entry { key: vstd::slice::slice_to_vec(key), value: vstd::slice::slice_to_vec(value) }
    }

    /// The bytes of the entry: each part behind its length.
    pub fn encode(self) -> (out: Vec<u8>)
        requires
            self@.0.len() <= 0xFFFF,
            self@.1.len() <= 0xFFFF,
        ensures
            out@ == encoded_entry(self@.0, self@.1),
    {
        let klen = self.key.len();
        let vlen = self.value.len();
        let mut buf: Vec<u8> = Vec::with_capacity(SIZEOF_U16 + klen + SIZEOF_U16 + vlen);
        put_u16(&mut buf, klen as u16);
        put_slice(&mut buf, self.key.as_slice());
        put_u16(&mut buf, vlen as u16);
        put_slice(&mut buf, self.value.as_slice());
        buf
    }

    /// The number of bytes that `encode` gives.
    pub fn encode_len(&self) -> (n: usize)
        requires
            self@.0.len() <= 0xFFFF,
            self@.1.len() <= 0xFFFF,
        ensures
            n == 4 + self@.0.len() + self@.1.len(),
    {
        SIZEOF_U16 + self.key.len() + SIZEOF_U16 + self.value.len()
    }
}

/// Collects entries until the block is full.
#[derive(Debug)]
pub struct BlockBuilder {
    target_size: usize,
    data: Vec<u8>,
    offsets: Vec<u16>,
    size: usize,
}

impl View for BlockBuilder {
    type V = BlockView;

    closed spec fn view(&self) -> BlockView {
        BlockView { data: self.data@, offsets: self.offsets@ }
    }
}

impl BlockBuilder {
    /// The size that the block is not to exceed.
    pub closed spec fn target_size(&self) -> usize {
        self.target_size
    }

    /// The number of bytes of entries taken so far.
    pub closed spec fn size(&self) -> usize {
        self.size
    }

    /// The entries taken so far.
    pub open spec fn entries(&self) -> Seq<(Seq<u8>, Seq<u8>)> {
        self@.entries()
    }

    /// What holds of every builder: the size is that of the bytes taken,
    /// every offset is the start of an entry with a key, and an entry takes
    /// five bytes at least.
    pub closed spec fn wf(&self) -> bool {
        &&& self.size == self.data@.len()
        &&& self.size <= MAX_BLOCK_DATA
        &&& 5 * self.offsets@.len() <= self.size
        &&& self.size > 0 ==> self.offsets@.len() > 0
        &&& all_keyed(self@)
    }

    /// The size of a builder is the number of the bytes of its entries, and
    /// it is zero exactly where there is no entry.
    pub proof fn lemma_size(&self)
        requires
            self.wf(),
        ensures
            self.size() == self@.data.len(),
            self@.offsets.len() == 0 <==> self.size() == 0,
            self@.offsets.len() == self.entries().len(),
    {
    }

    /// A builder of a block of `target_size` bytes, with no entry yet.
    pub fn new(target_size: usize) -> (builder: Self)
        ensures
            builder.wf(),
            builder.target_size() == target_size,
            builder.size() == 0,
            builder.entries() == Seq::<(Seq<u8>, Seq<u8>)>::empty(),
            builder@ == (BlockView { data: Seq::empty(), offsets: Seq::empty() }),
    {
        let builder = BlockBuilder { target_size, data: Vec::new(), offsets: Vec::new(), size: 0 };
        assert(builder.entries() =~= Seq::<(Seq<u8>, Seq<u8>)>::empty());
        builder
    }

    /// Whether an entry of this key and value still goes into the block:
    /// its bytes and the two bytes of its offset fit under the target size,
    /// and its offset fits in 16 bits.
    pub open spec fn has_room(&self, key: Seq<u8>, value: Seq<u8>) -> bool {
        &&& 4 + key.len() + value.len() + self.size() + SIZEOF_U16 <= self.target_size()
        &&& self.size() <= 0xFFFF
    }

    /// Takes one more entry, or says that the block is full.
    ///
    /// On `true` the entry stands behind those taken before; on `false`
    /// nothing has changed.
    #[must_use]
    pub fn add(&mut self, key: &[u8], value: &[u8]) -> (taken: bool)
        requires
            old(self).wf(),
            0 < key@.len() <= 0xFFFF,
            value@.len() <= 0xFFFF,
        ensures
            final(self).wf(),
            final(self).target_size() == old(self).target_size(),
            taken == old(self).has_room(key@, value@),
            taken ==> final(self).entries() == old(self).entries().push((key@, value@))
                && final(self).size() == old(self).size() + 4 + key@.len() + value@.len(),
            taken ==> final(self)@ == crate::block::with_entry(old(self)@, key@, value@),
            final(self).size() == final(self)@.data.len(),
            !taken ==> final(self)@ == old(self)@ && final(self).size() == old(self).size(),
    {
        let entry = Entry::new(key, value);
        let encode_len = entry.encode_len();

        if self.size > 0xFFFF || encode_len + self.size + SIZEOF_U16 > self.target_size {
            return false;
        }
        proof {
            lemma_with_entry(self@, key@, value@);
        }
        let ghost before = self@;
        let bytes = entry.encode();
        put_slice(&mut self.data, bytes.as_slice());
        self.offsets.push(self.size as u16);
        self.size += encode_len;
        assert(self@ == with_entry(before, key@, value@));
        true
    }

    /// Whether no entry was taken yet.
    pub fn is_empty(&self) -> (empty: bool)
        requires
            self.wf(),
        ensures
            empty == (self.entries().len() == 0),
            empty == (self.size() == 0),
    {
        self.size == 0
    }

    /// The block of the entries taken.
    pub fn build(self) -> (block: Block)
        requires
            self.wf(),
            self.entries().len() > 0,
        ensures
            block@ == self@,
            block.wf(),
    {
        Block::from_parts(self.data, self.offsets)
    }
}

} // verus!
