//! The options of the engine.

use crate::block::compress::CompressOptions;
use vstd::prelude::*;
use vstd::string::StringExecFns;

verus! {

/// What an engine is opened with.
#[derive(Clone, Debug)]
pub struct LsmOptions {
    /// The directory of the database.
    pub dir: String,
    /// The number of flush workers; one.
    pub flush_num: usize,
    /// The number of compaction workers.
    pub compactor_num: usize,
    /// The number of ranges that a compaction is split into.
    pub subcompactor_num: usize,
    /// The capacity of the cache of decoded blocks, in bytes.
    pub block_cache_size: u64,
    /// The target size of a block, in bytes.
    pub block_size: usize,
    /// The size above which the active memtable is rotated, in bytes.
    pub memtable_size: usize,
    /// The number of memtables at which a flush becomes urgent.
    pub max_memtable_num: usize,
    /// The number of immutable memtables that a regular flush waits for.
    pub min_memtable_to_merge: usize,
    /// The number of tables of level 0 at which it is compacted.
    pub level0_file_num_compaction_trigger: usize,
    /// The target size of a table of level 1, in bytes.
    pub target_file_size_base: usize,
    /// The target size of level 1, in bytes.
    pub max_bytes_for_level_base: usize,
    /// The factor by which each level is larger than the one above.
    pub max_bytes_for_level_multiplier: usize,
    /// The number of levels; two at least.
    pub num_levels: usize,
    /// The codec of the blocks.
    pub compress_option: CompressOptions,
    /// Whether table files are written with direct and synchronous I/O.
    pub o_direct: bool,
    /// The size of the bloom filter of a table, in thousandths of a bit for
    /// each key; zero for tables without a filter. For a false positive
    /// rate `p` this is `1000 * -ln p / (ln 2)^2`, rounded up.
    pub bloom_millibits_per_key: usize,
    /// The number of probes of the bloom filter; for a false positive rate
    /// `p` this is `-ln p`, rounded up.
    pub bloom_probes: u8,
    /// The number of entries that the write coalescer waits for; zero to
    /// run without it.
    pub wait_entry_num: usize,
}

/// `a * b`, or the largest number where that is too large.
pub fn saturating_product(a: usize, b: usize) -> (p: usize)
    ensures
        p == if a * b <= usize::MAX {
            a * b
        } else {
            usize::MAX as int
        },
{
    match a.checked_mul(b) {
        Some(p) => p,
        None => usize::MAX,
    }
}

impl Default for LsmOptions {
    fn default() -> (opt: Self)
        ensures
            opt.dir@.len() == 0,
            opt.flush_num == 1,
            opt.compactor_num == 4,
            opt.subcompactor_num == 4,
            opt.block_cache_size == 2 * 1024 * 1024 * 1024,
            opt.block_size == 4 * 1024,
            opt.memtable_size == 256 * 1024 * 1024,
            opt.max_memtable_num == 5,
            opt.min_memtable_to_merge == 2,
            opt.level0_file_num_compaction_trigger == 5,
            opt.target_file_size_base == 256 * 1024 * 1024,
            opt.max_bytes_for_level_base == if 2560int * 1024 * 1024 <= usize::MAX {
                2560int * 1024 * 1024
            } else {
                usize::MAX as int
            },
            opt.max_bytes_for_level_multiplier == 10,
            opt.num_levels == 6,
            opt.compress_option == CompressOptions::Snappy,
            !opt.o_direct,
            opt.bloom_millibits_per_key == 4793,
            opt.bloom_probes == 3,
            opt.wait_entry_num == 10,
    {
        LsmOptions {
            dir: String::new(),
            flush_num: 1,
            compactor_num: 4,
            subcompactor_num: 4,
            block_cache_size: 2 * 1024 * 1024 * 1024,
            block_size: 4 * 1024,
            memtable_size: 256 * 1024 * 1024,
            max_memtable_num: 5,
            min_memtable_to_merge: 2,
            level0_file_num_compaction_trigger: 5,
            max_bytes_for_level_base: saturating_product(256 * 1024 * 1024, 10),
            target_file_size_base: 256 * 1024 * 1024,
            max_bytes_for_level_multiplier: 10,
            num_levels: 6,
            compress_option: CompressOptions::Snappy,
            o_direct: false,
            bloom_millibits_per_key: 4793,
            bloom_probes: 3,
            wait_entry_num: 10,
        }
    }
}

impl LsmOptions {
    /// A copy of these options.
    pub fn duplicate(&self) -> (opt: Self)
        ensures
            opt == *self,
    {
        LsmOptions {
            dir: self.dir.clone(),
            flush_num: self.flush_num,
            compactor_num: self.compactor_num,
            subcompactor_num: self.subcompactor_num,
            block_cache_size: self.block_cache_size,
            block_size: self.block_size,
            memtable_size: self.memtable_size,
            max_memtable_num: self.max_memtable_num,
            min_memtable_to_merge: self.min_memtable_to_merge,
            level0_file_num_compaction_trigger: self.level0_file_num_compaction_trigger,
            target_file_size_base: self.target_file_size_base,
            max_bytes_for_level_base: self.max_bytes_for_level_base,
            max_bytes_for_level_multiplier: self.max_bytes_for_level_multiplier,
            num_levels: self.num_levels,
            compress_option: self.compress_option,
            o_direct: self.o_direct,
            bloom_millibits_per_key: self.bloom_millibits_per_key,
            bloom_probes: self.bloom_probes,
            wait_entry_num: self.wait_entry_num,
        }
    }

    /// These options with another directory.
    pub fn path(self, path: &str) -> (opt: Self)
        ensures
            opt.dir@ == path@,
            opt == (LsmOptions { dir: opt.dir, ..self }),
    {
        let mut opt = self;
        opt.dir = String::from_str(path);
        opt
    }

    /// These options with another target size of a block.
    pub fn block_size(self, block_size: usize) -> (opt: Self)
        ensures
            opt == (LsmOptions { block_size, ..self }),
    {
        let mut opt = self;
        opt.block_size = block_size;
        opt
    }

    /// Opens the engine of a database with these options; see
    /// `LsmStorage::open`.
    pub fn open(
        self,
        manifest: &[u8],
        files: Vec<(u64, crate::table::file_object::FileObject)>,
        logs: Vec<(usize, Vec<u8>)>,
    ) -> (r: Result<crate::lsm_storage::LsmStorage, crate::error::LsmError>)
        ensures
            r matches Ok(storage) ==> crate::lsm_storage::LsmStorageInner::opened(
                storage.inner(),
                self,
                manifest@,
                files@,
                logs@,
            ),
            r is Ok <==> crate::level::opens(self, manifest@, files@) && (forall|k: int|
                0 <= k < logs@.len() ==> (#[trigger] logs@[k]).0 < usize::MAX - 1),
    {
        crate::lsm_storage::LsmStorage::open(self, manifest, files, logs)
    }

    /// Whether tables get a bloom filter.
    pub open spec fn has_bloom(&self) -> bool {
        self.bloom_millibits_per_key > 0
    }

    /// The number of bits of the bloom filter of a table of `keys` keys:
    /// the bits for each key times the number of keys, rounded up.
    pub open spec fn bloom_bits(&self, keys: nat) -> nat {
        let bits = (keys * self.bloom_millibits_per_key + 999) / 1000;
        if bits <= usize::MAX - 8 {
            bits as nat
        } else {
            (usize::MAX - 8) as nat
        }
    }

    /// The number of bits of the bloom filter of a table of `keys` keys.
    pub fn filter_bits(&self, keys: usize) -> (bits: usize)
        ensures
            bits == self.bloom_bits(keys as nat),
            bits <= usize::MAX - 8,
    {
        assert(keys as u128 * self.bloom_millibits_per_key as u128 <= 0xFFFF_FFFF_FFFF_FFFF
            * 0xFFFF_FFFF_FFFF_FFFF) by (nonlinear_arith)
            requires
                keys <= 0xFFFF_FFFF_FFFF_FFFF,
                self.bloom_millibits_per_key <= 0xFFFF_FFFF_FFFF_FFFF,
        ;
        let wide: u128 = (keys as u128 * self.bloom_millibits_per_key as u128 + 999) / 1000;
        if wide <= (usize::MAX - 8) as u128 {
            wide as usize
        } else {
            usize::MAX - 8
        }
    }
}

} // verus!
