//! Parameters of the storage engine.
use vstd::prelude::*;

verus! {

pub const KB: usize = 1024;

pub const MB: usize = 1048576;

/// Target size of a block before compression.
pub const BLOCK_MAX_SIZE: usize = 4096;

/// Capacity of the block cache, in bytes.
pub const BLOCK_CACHE_CAPACITY: usize = 8388608;

/// Size of a memtable at which it is flushed.
pub const WRITE_BUFFER_SIZE: usize = 4194304;

/// Bits per key of the default filter policy.
pub const DEFAULT_BITS_PER_KEY: u32 = 10;

/// How a block is compressed.
#[derive(Clone, Copy, PartialEq, Eq, Debug, Structural)]
pub enum CompressionType {
    CompressionNone,
    CompressionSnappy,
}

/// The compression type with the given code: 0 none, 1 snappy.
pub fn int_to_compressiontype(i: u32) -> (r: Option<CompressionType>)
    ensures
        i == 0 ==> r == Some(CompressionType::CompressionNone),
        i == 1 ==> r == Some(CompressionType::CompressionSnappy),
        i > 1 ==> r is None,
{
    match i {
        0 => Some(CompressionType::CompressionNone),
        1 => Some(CompressionType::CompressionSnappy),
        _ => None,
    }
}

/// General parameters of a database instance.
#[derive(Clone, Copy, Debug)]
pub struct Options {
    pub create_if_missing: bool,
    pub error_if_exists: bool,
    pub paranoid_checks: bool,
    pub write_buffer_size: usize,
    pub max_open_files: usize,
    pub max_file_size: usize,
    pub block_cache_capacity: usize,
    pub block_size: usize,
    pub block_restart_interval: usize,
    pub compression_type: CompressionType,
    pub reuse_logs: bool,
    pub reuse_manifest: bool,
    pub bits_per_key: u32,
}

impl Default for Options {
    fn default() -> (r: Options)
        ensures
            r == Options::default_spec(),
    {
        Options {
            create_if_missing: true,
            error_if_exists: false,
            paranoid_checks: false,
            write_buffer_size: WRITE_BUFFER_SIZE,
            max_open_files: 1024,
            max_file_size: 2097152,
            block_cache_capacity: BLOCK_CACHE_CAPACITY,
            block_size: BLOCK_MAX_SIZE,
            block_restart_interval: 16,
            compression_type: CompressionType::CompressionNone,
            reuse_logs: true,
            reuse_manifest: true,
            bits_per_key: DEFAULT_BITS_PER_KEY,
        }
    }
}

impl Options {
    /// The defaults of every option.
    pub open spec fn default_spec() -> Options {
        Options {
            create_if_missing: true,
            error_if_exists: false,
            paranoid_checks: false,
            write_buffer_size: WRITE_BUFFER_SIZE,
            max_open_files: 1024,
            max_file_size: 2097152,
            block_cache_capacity: BLOCK_CACHE_CAPACITY,
            block_size: BLOCK_MAX_SIZE,
            block_restart_interval: 16,
            compression_type: CompressionType::CompressionNone,
            reuse_logs: true,
            reuse_manifest: true,
            bits_per_key: DEFAULT_BITS_PER_KEY,
        }
    }
}

} // verus!
