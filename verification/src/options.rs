//! Compression levels and the caller-supplied configuration of a run.

use vstd::prelude::*;

verus! {

/// Compression level for archive operations.
///
/// `Store` writes chunks through untransformed; the other levels trade
/// increasing effort for ratio.
#[derive(Debug, Copy, Clone, PartialEq, Eq, Structural)]
pub enum CompressionLevel {
    /// No compression (store only)
    Store,
    /// Fastest compression
    Fastest,
    /// Fast compression
    Fast,
    /// Normal compression (balanced)
    Normal,
    /// Maximum compression
    Maximum,
    /// Ultra compression (slowest, best ratio)
    Ultra,
}

/// Compression levels of the engine's C-compatible surface.
///
/// `value` gives the numeric value of each level, as the wire protocol
/// fixes them.
#[allow(non_camel_case_types)]
#[derive(Debug, Copy, Clone, PartialEq, Eq, Structural)]
pub enum SevenZipCompressionLevel {
    SEVENZIP_LEVEL_STORE,
    SEVENZIP_LEVEL_FASTEST,
    SEVENZIP_LEVEL_FAST,
    SEVENZIP_LEVEL_NORMAL,
    SEVENZIP_LEVEL_MAXIMUM,
    SEVENZIP_LEVEL_ULTRA,
}

impl SevenZipCompressionLevel {
    /// The numeric value of this level.
    pub open spec fn spec_value(self) -> i32 {
        match self {
            SevenZipCompressionLevel::SEVENZIP_LEVEL_STORE => 0,
            SevenZipCompressionLevel::SEVENZIP_LEVEL_FASTEST => 1,
            SevenZipCompressionLevel::SEVENZIP_LEVEL_FAST => 3,
            SevenZipCompressionLevel::SEVENZIP_LEVEL_NORMAL => 5,
            SevenZipCompressionLevel::SEVENZIP_LEVEL_MAXIMUM => 7,
            SevenZipCompressionLevel::SEVENZIP_LEVEL_ULTRA => 9,
        }
    }

    /// The numeric value of this level.
    #[verifier::when_used_as_spec(spec_value)]
    pub fn value(self) -> (r: i32)
        ensures
            r == self.spec_value(),
    {
        match self {
            SevenZipCompressionLevel::SEVENZIP_LEVEL_STORE => 0,
            SevenZipCompressionLevel::SEVENZIP_LEVEL_FASTEST => 1,
            SevenZipCompressionLevel::SEVENZIP_LEVEL_FAST => 3,
            SevenZipCompressionLevel::SEVENZIP_LEVEL_NORMAL => 5,
            SevenZipCompressionLevel::SEVENZIP_LEVEL_MAXIMUM => 7,
            SevenZipCompressionLevel::SEVENZIP_LEVEL_ULTRA => 9,
        }
    }
}

/// What a `CompressionLevel` maps to on the C-compatible surface.
pub open spec fn spec_level_to_c(level: CompressionLevel) -> SevenZipCompressionLevel {
    match level {
        CompressionLevel::Store => SevenZipCompressionLevel::SEVENZIP_LEVEL_STORE,
        CompressionLevel::Fastest => SevenZipCompressionLevel::SEVENZIP_LEVEL_FASTEST,
        CompressionLevel::Fast => SevenZipCompressionLevel::SEVENZIP_LEVEL_FAST,
        CompressionLevel::Normal => SevenZipCompressionLevel::SEVENZIP_LEVEL_NORMAL,
        CompressionLevel::Maximum => SevenZipCompressionLevel::SEVENZIP_LEVEL_MAXIMUM,
        CompressionLevel::Ultra => SevenZipCompressionLevel::SEVENZIP_LEVEL_ULTRA,
    }
}

impl From<CompressionLevel> for SevenZipCompressionLevel {
    fn from(level: CompressionLevel) -> (r: Self) {
        match level {
            CompressionLevel::Store => SevenZipCompressionLevel::SEVENZIP_LEVEL_STORE,
            CompressionLevel::Fastest => SevenZipCompressionLevel::SEVENZIP_LEVEL_FASTEST,
            CompressionLevel::Fast => SevenZipCompressionLevel::SEVENZIP_LEVEL_FAST,
            CompressionLevel::Normal => SevenZipCompressionLevel::SEVENZIP_LEVEL_NORMAL,
            CompressionLevel::Maximum => SevenZipCompressionLevel::SEVENZIP_LEVEL_MAXIMUM,
            CompressionLevel::Ultra => SevenZipCompressionLevel::SEVENZIP_LEVEL_ULTRA,
        }
    }
}

impl vstd::std_specs::convert::FromSpecImpl<CompressionLevel> for SevenZipCompressionLevel {
    open spec fn obeys_from_spec() -> bool {
        true
    }

    open spec fn from_spec(level: CompressionLevel) -> SevenZipCompressionLevel {
        spec_level_to_c(level)
    }
}

/// The byte a level is persisted as, inside checkpoints.
pub open spec fn spec_level_code(level: CompressionLevel) -> u8 {
    match level {
        CompressionLevel::Store => 0,
        CompressionLevel::Fastest => 1,
        CompressionLevel::Fast => 3,
        CompressionLevel::Normal => 5,
        CompressionLevel::Maximum => 7,
        CompressionLevel::Ultra => 9,
    }
}

/// The byte a level is persisted as, inside checkpoints.
#[verifier::when_used_as_spec(spec_level_code)]
pub fn level_code(level: CompressionLevel) -> (r: u8)
    ensures
        r == spec_level_code(level),
{
    match level {
        CompressionLevel::Store => 0,
        CompressionLevel::Fastest => 1,
        CompressionLevel::Fast => 3,
        CompressionLevel::Normal => 5,
        CompressionLevel::Maximum => 7,
        CompressionLevel::Ultra => 9,
    }
}

/// The level a persisted byte stands for.
pub open spec fn spec_level_from_code(code: u8) -> Option<CompressionLevel> {
    if code == 0 {
        Some(CompressionLevel::Store)
    } else if code == 1 {
        Some(CompressionLevel::Fastest)
    } else if code == 3 {
        Some(CompressionLevel::Fast)
    } else if code == 5 {
        Some(CompressionLevel::Normal)
    } else if code == 7 {
        Some(CompressionLevel::Maximum)
    } else if code == 9 {
        Some(CompressionLevel::Ultra)
    } else {
        None
    }
}

/// The level a persisted byte stands for.
#[verifier::when_used_as_spec(spec_level_from_code)]
pub fn level_from_code(code: u8) -> (r: Option<CompressionLevel>)
    ensures
        r == spec_level_from_code(code),
{
    if code == 0 {
        Some(CompressionLevel::Store)
    } else if code == 1 {
        Some(CompressionLevel::Fastest)
    } else if code == 3 {
        Some(CompressionLevel::Fast)
    } else if code == 5 {
        Some(CompressionLevel::Normal)
    } else if code == 7 {
        Some(CompressionLevel::Maximum)
    } else if code == 9 {
        Some(CompressionLevel::Ultra)
    } else {
        None
    }
}

/// Persisting a level and reading the byte back returns the level.
pub proof fn lemma_level_code_round_trip(level: CompressionLevel)
    ensures
        spec_level_from_code(spec_level_code(level)) == Some(level),
{
}

/// Advanced compression options.
#[derive(Debug, Clone)]
pub struct CompressOptions {
    /// Number of threads to use (0 = auto-detect)
    pub num_threads: usize,
    /// Dictionary size in bytes (0 = auto)
    pub dict_size: u64,
    /// Create solid archive (better compression)
    pub solid: bool,
    /// Optional password for encryption
    pub password: Option<String>,
}

impl Default for CompressOptions {
    fn default() -> (r: Self)
        ensures
            r.num_threads == 0,
            r.dict_size == 0,
            r.solid == true,
            r.password is None,
    {
        Self { num_threads: 0, dict_size: 0, solid: true, password: None }
    }
}

/// Streaming compression options for large inputs and split archives.
#[derive(Debug, Clone)]
pub struct StreamOptions {
    /// Number of threads to use (0 = auto-detect)
    pub num_threads: usize,
    /// Dictionary size in bytes (0 = auto)
    pub dict_size: u64,
    /// Create solid archive
    pub solid: bool,
    /// Optional password for encryption
    pub password: Option<String>,
    /// Split archive size in bytes (0 = no split)
    pub split_size: u64,
    /// Chunk size for streaming (0 = engine default)
    pub chunk_size: u64,
    /// Temporary directory (None = system default)
    pub temp_dir: Option<String>,
    /// Delete temporary files on error
    pub delete_temp_on_error: bool,
}

impl Default for StreamOptions {
    fn default() -> (r: Self)
        ensures
            r.num_threads == 0,
            r.dict_size == 0,
            r.solid == true,
            r.password is None,
            r.split_size == 0,
            r.chunk_size == 0,
            r.temp_dir is None,
            r.delete_temp_on_error == true,
    {
        Self {
            num_threads: 0,
            dict_size: 0,
            solid: true,
            password: None,
            split_size: 0,
            chunk_size: 0,
            temp_dir: None,
            delete_temp_on_error: true,
        }
    }
}

/// Chunk granularity used when the caller leaves `chunk_size` at 0: 64 MiB.
pub const DEFAULT_CHUNK_SIZE: u64 = 67108864;

/// Largest accepted chunk granularity, 1 GiB, so that a chunk and its frame
/// always fit the 32-bit length fields of the container.
pub const MAX_CHUNK_SIZE: u64 = 1073741824;

/// Slack a split threshold must leave above the chunk size, covering the
/// archive header and the frame header and cipher padding of one chunk.
pub const SPLIT_MARGIN: u64 = 128;

/// The chunk granularity a run uses: the configured one, or the engine
/// default when the caller left it at 0.
pub open spec fn spec_effective_chunk_size(chunk_size: u64) -> u64 {
    if chunk_size == 0 {
        DEFAULT_CHUNK_SIZE
    } else {
        chunk_size
    }
}

/// The chunk granularity a run uses: the configured one, or the engine
/// default when the caller left it at 0.
#[verifier::when_used_as_spec(spec_effective_chunk_size)]
pub fn effective_chunk_size(chunk_size: u64) -> (r: u64)
    ensures
        r == spec_effective_chunk_size(chunk_size),
{
    if chunk_size == 0 {
        DEFAULT_CHUNK_SIZE
    } else {
        chunk_size
    }
}

/// Whether a (chunk size, split size) pair is one the engine supports: the
/// effective chunk size stays within the container's 32-bit length fields,
/// and a split threshold leaves room for any single chunk frame, so that no
/// chunk is ever torn across volumes.
pub open spec fn spec_stream_config_ok(chunk_size: u64, split_size: u64) -> bool {
    &&& 1 <= spec_effective_chunk_size(chunk_size) <= MAX_CHUNK_SIZE
    &&& (split_size == 0 || split_size >= spec_effective_chunk_size(chunk_size) + SPLIT_MARGIN)
}

/// Whether a (chunk size, split size) pair is one the engine supports.
#[verifier::when_used_as_spec(spec_stream_config_ok)]
pub fn stream_config_ok(chunk_size: u64, split_size: u64) -> (r: bool)
    ensures
        r == spec_stream_config_ok(chunk_size, split_size),
{
    let chunk = effective_chunk_size(chunk_size);
    1 <= chunk && chunk <= MAX_CHUNK_SIZE && (split_size == 0 || (chunk
        <= 0xFFFFFFFFFFFFFFFF - SPLIT_MARGIN && split_size >= chunk + SPLIT_MARGIN))
}

} // verus!
