//! Configuration of the store, validated before an engine is built.
//!
//! All knobs are plain integers; the filter's false-positive rate is given
//! in parts per million, so a rate of one percent is 10 000.  Out-of-range
//! values are rejected with the matching error kind, each tied below to the
//! exact range it guards.

use vstd::prelude::*;

use crate::error::{LsmError, Result};

verus! {

/// How future merges of sorted runs would pick their candidates; recorded,
/// not yet acted on.
#[derive(Debug, Clone, Copy, PartialEq, Eq, Structural)]
pub enum CompactionStrategy {
    SizeTiered,
    Leveled,
}

/// Core knobs: where the data lives and when the staging table flushes.
#[derive(Debug, Clone)]
pub struct CoreConfig {
    /// Filesystem directory, created by the embedding shell if absent.
    pub dir_path: String,
    /// Flush threshold of the staging table, in bytes.
    pub memtable_max_size: usize,
}

/// Storage knobs of the sorted-run files and the block cache.
#[derive(Debug, Clone)]
pub struct StorageConfig {
    /// Byte budget of one data block.
    pub block_size: usize,
    /// Block cache budget, in megabytes.
    pub block_cache_size_mb: usize,
    /// Reserved for sparse-index tuning; informational.
    pub sparse_index_interval: usize,
    /// Reserved for future merging of sorted runs.
    pub compaction_strategy: CompactionStrategy,
    /// Filter false-positive rate, in parts per million of one.
    pub bloom_false_positive_rate_ppm: u32,
}

/// The whole configuration.
#[derive(Debug, Clone)]
pub struct LsmConfig {
    pub core: CoreConfig,
    pub storage: StorageConfig,
}

/// The core knobs are in range.
pub open spec fn core_config_valid(c: CoreConfig) -> bool {
    1024 <= c.memtable_max_size <= 0x40000000
}

/// The storage knobs are in range.
pub open spec fn storage_config_valid(c: StorageConfig) -> bool {
    &&& 256 <= c.block_size <= 0x100000
    &&& 1 <= c.block_cache_size_mb
    &&& 1 <= c.sparse_index_interval
    &&& 1 <= c.bloom_false_positive_rate_ppm < 1000000
}

impl Default for CoreConfig {
    /// Four-megabyte staging table in `./.lsmdata`.
    fn default() -> (r: CoreConfig)
        ensures
            r.memtable_max_size == 0x400000,
            core_config_valid(r),
    {
        CoreConfig { dir_path: "./.lsmdata".to_string(), memtable_max_size: 0x400000 }
    }
}

impl Default for StorageConfig {
    /// Four-kilobyte blocks, a 64-megabyte cache, a one-percent filter.
    fn default() -> (r: StorageConfig)
        ensures
            r.block_size == 4096,
            r.block_cache_size_mb == 64,
            r.sparse_index_interval == 16,
            r.bloom_false_positive_rate_ppm == 10000,
            r.compaction_strategy == CompactionStrategy::SizeTiered,
            storage_config_valid(r),
    {
        StorageConfig {
            block_size: 4096,
            block_cache_size_mb: 64,
            sparse_index_interval: 16,
            compaction_strategy: CompactionStrategy::SizeTiered,
            bloom_false_positive_rate_ppm: 10000,
        }
    }
}

impl Default for LsmConfig {
    fn default() -> (r: LsmConfig)
        ensures
            r.core.memtable_max_size == 0x400000,
            r.storage == (StorageConfig {
                block_size: 4096,
                block_cache_size_mb: 64,
                sparse_index_interval: 16,
                compaction_strategy: CompactionStrategy::SizeTiered,
                bloom_false_positive_rate_ppm: 10000,
            }),
            core_config_valid(r.core),
            storage_config_valid(r.storage),
    {
        LsmConfig { core: CoreConfig::default(), storage: StorageConfig::default() }
    }
}

impl StorageConfig {
    /// An exact copy of the storage knobs.
    pub fn duplicate(&self) -> (r: StorageConfig)
        ensures
            r == *self,
    {
        StorageConfig {
            block_size: self.block_size,
            block_cache_size_mb: self.block_cache_size_mb,
            sparse_index_interval: self.sparse_index_interval,
            compaction_strategy: self.compaction_strategy,
            bloom_false_positive_rate_ppm: self.bloom_false_positive_rate_ppm,
        }
    }
}

impl CoreConfig {
    /// Accepts exactly the in-range staging-table sizes; the error names
    /// the bound that was crossed.
    pub fn validate(&self) -> (r: Result<()>)
        ensures
            r is Ok <==> core_config_valid(*self),
            self.memtable_max_size == 0 ==> r == Result::<()>::Err(
                LsmError::InvalidMemtableSize("memtable size cannot be 0"),
            ),
            0 < self.memtable_max_size < 1024 ==> r == Result::<()>::Err(
                LsmError::InvalidMemtableSize("memtable size too small (minimum 1 KiB)"),
            ),
            self.memtable_max_size > 0x40000000 ==> r == Result::<()>::Err(
                LsmError::InvalidMemtableSize("memtable size too large (maximum 1 GiB)"),
            ),
    {
        if self.memtable_max_size == 0 {
            Err(LsmError::InvalidMemtableSize("memtable size cannot be 0"))
        } else if self.memtable_max_size < 1024 {
            Err(LsmError::InvalidMemtableSize("memtable size too small (minimum 1 KiB)"))
        } else if self.memtable_max_size > 0x40000000 {
            Err(LsmError::InvalidMemtableSize("memtable size too large (maximum 1 GiB)"))
        } else {
            Ok(())
        }
    }
}

impl StorageConfig {
    /// Accepts exactly the in-range storage knobs; the error names the knob
    /// and the bound that was crossed.
    pub fn validate(&self) -> (r: Result<()>)
        ensures
            r is Ok <==> storage_config_valid(*self),
            r is Err ==> (match r {
                Result::Err(LsmError::InvalidBlockSize(_)) => !(256 <= self.block_size
                    <= 0x100000),
                Result::Err(LsmError::InvalidCacheSize(_)) => self.block_cache_size_mb == 0,
                Result::Err(LsmError::InvalidIndexInterval(_)) => self.sparse_index_interval == 0,
                Result::Err(LsmError::InvalidBloomRate(_)) => !(1
                    <= self.bloom_false_positive_rate_ppm < 1000000),
                _ => false,
            }),
    {
        if self.block_size == 0 {
            Err(LsmError::InvalidBlockSize("block size cannot be 0"))
        } else if self.block_size < 256 {
            Err(LsmError::InvalidBlockSize("block size too small (minimum 256 bytes)"))
        } else if self.block_size > 0x100000 {
            Err(LsmError::InvalidBlockSize("block size cannot exceed 1 MiB"))
        } else if self.block_cache_size_mb == 0 {
            Err(LsmError::InvalidCacheSize("cache size cannot be 0"))
        } else if self.sparse_index_interval == 0 {
            Err(LsmError::InvalidIndexInterval("sparse index interval cannot be 0"))
        } else if self.bloom_false_positive_rate_ppm == 0 || self.bloom_false_positive_rate_ppm
            >= 1000000 {
            Err(LsmError::InvalidBloomRate("filter false-positive rate must lie strictly between 0 and 1"))
        } else {
            Ok(())
        }
    }
}

impl LsmConfig {
    /// A fresh default configuration.
    pub fn new() -> (r: LsmConfig)
        ensures
            core_config_valid(r.core),
            storage_config_valid(r.storage),
    {
        LsmConfig::default()
    }

    /// A builder seeded with the defaults.
    pub fn builder() -> (r: LsmConfigBuilder)
        ensures
            r == (LsmConfigBuilder {
                dir_path: Option::<String>::None,
                memtable_max_size: Option::<usize>::None,
                block_size: Option::<usize>::None,
                block_cache_size_mb: Option::<usize>::None,
                sparse_index_interval: Option::<usize>::None,
                bloom_false_positive_rate_ppm: Option::<u32>::None,
            }),
    {
        LsmConfigBuilder {
            dir_path: None,
            memtable_max_size: None,
            block_size: None,
            block_cache_size_mb: None,
            sparse_index_interval: None,
            bloom_false_positive_rate_ppm: None,
        }
    }

    /// Accepts exactly the configurations whose knobs all lie in range.
    pub fn validate(&self) -> (r: Result<()>)
        ensures
            r is Ok <==> core_config_valid(self.core) && storage_config_valid(self.storage),
    {
        let core_check = self.core.validate();
        if let Err(e) = core_check {
            return Err(e);
        }
        let storage_check = self.storage.validate();
        if let Err(e) = storage_check {
            return Err(e);
        }
        Ok(())
    }
}

/// Builds a configuration knob by knob; unset knobs take the defaults, and
/// the result is validated before it is handed out.
pub struct LsmConfigBuilder {
    pub dir_path: Option<String>,
    pub memtable_max_size: Option<usize>,
    pub block_size: Option<usize>,
    pub block_cache_size_mb: Option<usize>,
    pub sparse_index_interval: Option<usize>,
    pub bloom_false_positive_rate_ppm: Option<u32>,
}

impl LsmConfigBuilder {
    pub fn dir_path(self, path: String) -> (r: LsmConfigBuilder)
        ensures
            r == (LsmConfigBuilder { dir_path: Option::Some(path), ..self }),
    {
        LsmConfigBuilder { dir_path: Some(path), ..self }
    }

    pub fn memtable_max_size(self, size: usize) -> (r: LsmConfigBuilder)
        ensures
            r == (LsmConfigBuilder { memtable_max_size: Option::Some(size), ..self }),
    {
        LsmConfigBuilder { memtable_max_size: Some(size), ..self }
    }

    pub fn block_size(self, size: usize) -> (r: LsmConfigBuilder)
        ensures
            r == (LsmConfigBuilder { block_size: Option::Some(size), ..self }),
    {
        LsmConfigBuilder { block_size: Some(size), ..self }
    }

    pub fn block_cache_size_mb(self, size: usize) -> (r: LsmConfigBuilder)
        ensures
            r == (LsmConfigBuilder { block_cache_size_mb: Option::Some(size), ..self }),
    {
        LsmConfigBuilder { block_cache_size_mb: Some(size), ..self }
    }

    pub fn sparse_index_interval(self, interval: usize) -> (r: LsmConfigBuilder)
        ensures
            r == (LsmConfigBuilder { sparse_index_interval: Option::Some(interval), ..self }),
    {
        LsmConfigBuilder { sparse_index_interval: Some(interval), ..self }
    }

    pub fn bloom_false_positive_rate_ppm(self, rate_ppm: u32) -> (r: LsmConfigBuilder)
        ensures
            r == (LsmConfigBuilder {
                bloom_false_positive_rate_ppm: Option::Some(rate_ppm),
                ..self
            }),
    {
        LsmConfigBuilder { bloom_false_positive_rate_ppm: Some(rate_ppm), ..self }
    }

    /// The staging-table size this builder would choose.
    pub open spec fn chosen_memtable_max(&self) -> usize {
        match self.memtable_max_size {
            Option::Some(v) => v,
            Option::None => 0x400000,
        }
    }

    /// The storage knobs this builder would choose.
    pub open spec fn chosen_storage(&self) -> StorageConfig {
        StorageConfig {
            block_size: match self.block_size {
                Option::Some(v) => v,
                Option::None => 4096,
            },
            block_cache_size_mb: match self.block_cache_size_mb {
                Option::Some(v) => v,
                Option::None => 64,
            },
            sparse_index_interval: match self.sparse_index_interval {
                Option::Some(v) => v,
                Option::None => 16,
            },
            compaction_strategy: CompactionStrategy::SizeTiered,
            bloom_false_positive_rate_ppm: match self.bloom_false_positive_rate_ppm {
                Option::Some(v) => v,
                Option::None => 10000,
            },
        }
    }

    /// The configured knobs over the defaults: succeeds exactly when they
    /// validate, and then hands back exactly those knobs; a failure names
    /// the knob that is out of range.
    pub fn build(self) -> (r: Result<LsmConfig>)
        ensures
            r is Ok <==> 1024 <= self.chosen_memtable_max() <= 0x40000000
                && storage_config_valid(self.chosen_storage()),
            r matches Ok(c) ==> c.core.memtable_max_size == self.chosen_memtable_max()
                && c.storage == self.chosen_storage() && core_config_valid(c.core)
                && storage_config_valid(c.storage),
            r matches Err(e) ==> match e {
                LsmError::InvalidMemtableSize(_) => !(1024 <= self.chosen_memtable_max()
                    <= 0x40000000),
                LsmError::InvalidBlockSize(_) => !(256 <= self.chosen_storage().block_size
                    <= 0x100000),
                LsmError::InvalidCacheSize(_) => self.chosen_storage().block_cache_size_mb == 0,
                LsmError::InvalidIndexInterval(_) => self.chosen_storage().sparse_index_interval
                    == 0,
                LsmError::InvalidBloomRate(_) => !(1 <= self.chosen_storage().bloom_false_positive_rate_ppm
                    < 1000000),
                _ => false,
            },
    {
        let defaults = LsmConfig::default();
        let dir_path = match self.dir_path {
            Some(p) => p,
            None => defaults.core.dir_path,
        };
        let config = LsmConfig {
            core: CoreConfig {
                dir_path,
                memtable_max_size: match self.memtable_max_size {
                    Some(v) => v,
                    None => defaults.core.memtable_max_size,
                },
            },
            storage: StorageConfig {
                block_size: match self.block_size {
                    Some(v) => v,
                    None => defaults.storage.block_size,
                },
                block_cache_size_mb: match self.block_cache_size_mb {
                    Some(v) => v,
                    None => defaults.storage.block_cache_size_mb,
                },
                sparse_index_interval: match self.sparse_index_interval {
                    Some(v) => v,
                    None => defaults.storage.sparse_index_interval,
                },
                compaction_strategy: defaults.storage.compaction_strategy,
                bloom_false_positive_rate_ppm: match self.bloom_false_positive_rate_ppm {
                    Some(v) => v,
                    None => defaults.storage.bloom_false_positive_rate_ppm,
                },
            },
        };
        let core_check = config.core.validate();
        if let Err(e) = core_check {
            return Err(e);
        }
        let storage_check = config.storage.validate();
        if let Err(e) = storage_check {
            return Err(e);
        }
        Ok(config)
    }
}

} // verus!
