//! A streaming archive engine.
//!
//! The engine packs files into a compressed, optionally encrypted, optionally
//! multi-volume container, and reverses the process.  All container logic —
//! chunking, compression, encryption, volume splitting, checkpointing and the
//! extraction mirror — is verified: creating an archive and extracting it
//! again returns the original files, volumes respect the configured split
//! size, and a wrong password is rejected before any entry is decoded.
//!
//! File and console I/O stay outside the library: callers hand in file
//! contents (or feed them chunk by chunk through an archive writer) and
//! receive volume bytes back.

pub mod archive;
pub mod checksum;
pub mod codec;
pub mod cipher;
pub mod error;
pub mod format;
pub mod laws;
pub mod options;
pub mod reader;
pub mod writer;

pub use archive::ArchiveEntry;
pub use cipher::AES_BLOCK_SIZE;
pub use cipher::AES_KEY_SIZE;
pub use cipher::AES_NUM_IVMRK_WORDS;
pub use archive::EntryTestReport;
pub use archive::FileData;
pub use archive::SevenZip;
pub use error::Error;
pub use error::SevenZipErrorCode;
pub use options::CompressOptions;
pub use options::CompressionLevel;
pub use options::SevenZipCompressionLevel;
pub use options::StreamOptions;
