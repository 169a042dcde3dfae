//! Configuration of a write cache.

use vstd::prelude::*;
use vstd::string::StringExecFns;
use crate::text::joined_path;
use crate::write_cache::error::CacheError;

verus! {

/// Configuration for the write cache.
#[derive(Clone, Debug)]
pub struct WriteCacheConfig {
    /// Path to the local cache directory
    pub cache_dir: String,
    /// Device name (used for cache file naming)
    pub device_name: String,
    /// Device size in bytes
    pub device_size: u64,
    /// Block size in bytes
    pub block_size: usize,
    /// Whether to fsync the WAL after each write batch (default: false).
    pub wal_sync: bool,
}

/// `a / b`, rounded up.
pub open spec fn ceil_div(a: int, b: int) -> int {
    if a % b == 0 {
        a / b
    } else {
        a / b + 1
    }
}

impl WriteCacheConfig {
    /// The number of blocks that cover the device.
    pub open spec fn spec_num_blocks(&self) -> int {
        ceil_div(self.device_size as int, self.block_size as int)
    }

    /// The path of the cache file with the given suffix.
    pub open spec fn spec_path(&self, suffix: Seq<char>) -> Seq<char> {
        joined_path(self.cache_dir@, self.device_name@ + suffix)
    }

    /// Calculate the number of blocks for this device.
    pub fn num_blocks(&self) -> (n: usize)
        requires
            self.block_size > 0,
            self.spec_num_blocks() <= usize::MAX,
        ensures
            n == self.spec_num_blocks(),
    {
        let block_size: u64 = self.block_size as u64;
        let whole: u64 = self.device_size / block_size;
        if self.device_size % block_size == 0 {
            whole as usize
        } else {
            whole as usize + 1
        }
    }

    fn path_with(&self, suffix: &str) -> (path: String)
        ensures
            path@ == self.spec_path(suffix@),
    {
        let name = self.device_name.clone().concat(suffix);
        let name_len: usize = name.as_str().unicode_len();
        if name_len > 0 && name.as_str().get_char(0) == '/' {
            return name;
        }
        let dir_len: usize = self.cache_dir.as_str().unicode_len();
        if dir_len == 0 || self.cache_dir.as_str().get_char(dir_len - 1) == '/' {
            return self.cache_dir.clone().concat(name.as_str());
        }
        let mut dir = self.cache_dir.clone();
        dir.push('/');
        let path = dir.concat(name.as_str());
        assert(path@ =~= self.cache_dir@ + seq!['/'] + name@);
        path
    }

    /// Path to the cache data file.
    pub fn data_path(&self) -> (path: String)
        ensures
            path@ == self.spec_path(".cache"@),
    {
        self.path_with(".cache")
    }

    /// Path to the cache metadata file.
    pub fn metadata_path(&self) -> (path: String)
        ensures
            path@ == self.spec_path(".meta"@),
    {
        self.path_with(".meta")
    }

    /// Path to the WAL file.
    pub fn wal_path(&self) -> (path: String)
        ensures
            path@ == self.spec_path(".wal"@),
    {
        self.path_with(".wal")
    }

    /// Path to the flushing data file (exists only during an active flush).
    pub fn flushing_path(&self) -> (path: String)
        ensures
            path@ == self.spec_path(".flushing"@),
    {
        self.path_with(".flushing")
    }

    /// Validate configuration. Guards against zero block_size which would
    /// cause division-by-zero in num_blocks().
    pub fn validate(&self) -> (result: Result<(), CacheError>)
        ensures
            result == (if self.block_size == 0 || self.device_size == 0 {
                Err::<(), CacheError>(CacheError::InvalidMetadata)
            } else {
                Ok::<(), CacheError>(())
            }),
    {
        if self.block_size == 0 {
            return Err(CacheError::InvalidMetadata);
        }
        if self.device_size == 0 {
            return Err(CacheError::InvalidMetadata);
        }
        Ok(())
    }
}

/// The blocks cover the device, and one fewer would not.
pub proof fn law_blocks_cover_the_device(config: WriteCacheConfig, n: usize)
    requires
        call_ensures(WriteCacheConfig::num_blocks, (&config,), n),
        config.block_size > 0,
    ensures
        config.device_size <= n * config.block_size,
        config.device_size > 0 ==> (n - 1) * config.block_size < config.device_size,
        config.device_size == 0 ==> n == 0,
{
    let d = config.device_size as int;
    let b = config.block_size as int;
    let whole = d / b;
    vstd::arithmetic::div_mod::lemma_fundamental_div_mod(d, b);
    vstd::arithmetic::div_mod::lemma_mod_bound(d, b);
    assert(b * whole == whole * b) by (nonlinear_arith);
    assert((whole + 1) * b == whole * b + b) by (nonlinear_arith);
    assert((whole - 1) * b == whole * b - b) by (nonlinear_arith);
    if d == 0 {
        assert(0int / b == 0 && 0int % b == 0) by (nonlinear_arith)
            requires
                b > 0,
        ;
    }
}

/// The files of a device are four different files, named after it, and devices with
/// different names in one directory share none of them.
pub proof fn law_files_are_distinct(
    a: WriteCacheConfig,
    b: WriteCacheConfig,
    data: String,
    metadata: String,
    wal: String,
    flushing: String,
    other_data: String,
    other_metadata: String,
    other_wal: String,
    other_flushing: String,
)
    requires
        call_ensures(WriteCacheConfig::data_path, (&a,), data),
        call_ensures(WriteCacheConfig::metadata_path, (&a,), metadata),
        call_ensures(WriteCacheConfig::wal_path, (&a,), wal),
        call_ensures(WriteCacheConfig::flushing_path, (&a,), flushing),
        call_ensures(WriteCacheConfig::data_path, (&b,), other_data),
        call_ensures(WriteCacheConfig::metadata_path, (&b,), other_metadata),
        call_ensures(WriteCacheConfig::wal_path, (&b,), other_wal),
        call_ensures(WriteCacheConfig::flushing_path, (&b,), other_flushing),
        a.cache_dir@ == b.cache_dir@,
        a.device_name@ != b.device_name@,
        a.device_name@.len() > 0 && a.device_name@[0] != '/',
        b.device_name@.len() > 0 && b.device_name@[0] != '/',
    ensures
        data@ != metadata@ && data@ != wal@ && data@ != flushing@,
        metadata@ != wal@ && metadata@ != flushing@,
        wal@ != flushing@,
        data@ != other_data@ && data@ != other_metadata@ && data@ != other_wal@ && data@
            != other_flushing@,
        metadata@ != other_metadata@ && metadata@ != other_wal@ && metadata@ != other_flushing@,
        wal@ != other_wal@ && wal@ != other_flushing@,
        flushing@ != other_flushing@,
        data@.len() > 6 && data@.subrange(data@.len() - 6, data@.len() as int) == ".cache"@,
        metadata@.len() > 5 && metadata@.subrange(metadata@.len() - 5, metadata@.len() as int)
            == ".meta"@,
        wal@.len() > 4 && wal@.subrange(wal@.len() - 4, wal@.len() as int) == ".wal"@,
        flushing@.len() > 9 && flushing@.subrange(flushing@.len() - 9, flushing@.len() as int)
            == ".flushing"@,
{
    reveal_strlit(".cache");
    reveal_strlit(".meta");
    reveal_strlit(".wal");
    reveal_strlit(".flushing");
    lemma_path_end(a, ".cache"@);
    lemma_path_end(a, ".meta"@);
    lemma_path_end(a, ".wal"@);
    lemma_path_end(a, ".flushing"@);
    lemma_path_end(b, ".cache"@);
    lemma_path_end(b, ".meta"@);
    lemma_path_end(b, ".wal"@);
    lemma_path_end(b, ".flushing"@);
    lemma_paths_differ(a, b, ".cache"@);
    lemma_paths_differ(a, b, ".meta"@);
    lemma_paths_differ(a, b, ".wal"@);
    lemma_paths_differ(a, b, ".flushing"@);
}

proof fn lemma_path_end(config: WriteCacheConfig, suffix: Seq<char>)
    requires
        config.device_name@.len() > 0,
        suffix.len() > 0,
    ensures
        ({
            let path = config.spec_path(suffix);
            &&& path.len() > suffix.len()
            &&& path.subrange(path.len() - suffix.len(), path.len() as int) == suffix
            &&& path.last() == suffix.last()
        }),
{
    let path = config.spec_path(suffix);
    assert(path.subrange(path.len() - suffix.len(), path.len() as int) =~= suffix);
}

proof fn lemma_paths_differ(a: WriteCacheConfig, b: WriteCacheConfig, suffix: Seq<char>)
    requires
        a.cache_dir@ == b.cache_dir@,
        a.device_name@ != b.device_name@,
        a.device_name@.len() > 0 && a.device_name@[0] != '/',
        b.device_name@.len() > 0 && b.device_name@[0] != '/',
    ensures
        a.spec_path(suffix) != b.spec_path(suffix),
{
    if a.spec_path(suffix) == b.spec_path(suffix) {
        let p = a.spec_path(suffix);
        let n = a.device_name@.len() + suffix.len();
        let from = p.len() - n;
        assert(p.subrange(from, from + a.device_name@.len()) =~= a.device_name@);
        assert(p.subrange(from, from + a.device_name@.len()) =~= b.device_name@);
    }
}

/// A configuration is accepted exactly if the device and its blocks have a size.
pub proof fn law_sizes_are_needed(config: WriteCacheConfig, result: Result<(), CacheError>)
    requires
        call_ensures(WriteCacheConfig::validate, (&config,), result),
    ensures
        result is Ok <==> config.block_size > 0 && config.device_size > 0,
        result matches Err(e) ==> e is InvalidMetadata,
{
}

} // verus!
