//! Errors of cache operations.

use vstd::prelude::*;
use vstd::string::StringExecFns;
use crate::text::{decimal, push_decimal};

verus! {

/// What went wrong in a file operation.
#[derive(Clone, Copy, Debug, PartialEq, Eq, Structural)]
pub enum IoErrorKind {
    /// The file ended before the bytes asked for.
    UnexpectedEof,
    /// The bytes are not what the format allows.
    InvalidData,
    /// The operation would have to wait for a lock.
    WouldBlock,
    /// Any other failure.
    Other,
}

/// A failed file operation.
#[derive(Clone, Debug)]
pub struct IoError {
    pub kind: IoErrorKind,
    pub message: String,
}

/// A failed request to the object store.
#[derive(Clone, Debug)]
pub enum ContentStoreError {
    /// The object was changed by someone else since its ETag was read.
    PreconditionFailed(String),
    /// Any other failure.
    Other(String),
}

/// Errors that can occur during cache operations.
#[derive(Clone, Debug)]
pub enum CacheError {
    Io(IoError),
    NotReady,
    ShuttingDown,
    InvalidMetadata,
    OffsetOutOfBounds(u64, u64),
    ContentStore(ContentStoreError),
    HashMismatch { expected: String, actual: String },
    DecompressFailed(String),
    UnsupportedBlockSize(usize, usize),
    BlockEvicted,
    VolumeManifest(String),
    /// WAL is held exclusively by another process.
    Locked(String),
    /// A strictly newer generation has taken this volume, so this writer has
    /// been superseded and must not commit.
    Fenced { held: u64, superseded_by: u64 },
}

impl ContentStoreError {
    /// The text of the error.
    pub open spec fn text(&self) -> Seq<char> {
        match self {
            ContentStoreError::PreconditionFailed(text) => text@,
            ContentStoreError::Other(text) => text@,
        }
    }

    /// The text of the error.
    pub fn message(&self) -> (text: &str)
        ensures
            text@ == self.text(),
    {
        match self {
            ContentStoreError::PreconditionFailed(text) => text.as_str(),
            ContentStoreError::Other(text) => text.as_str(),
        }
    }
}

impl CacheError {
    /// The text of the error.
    pub open spec fn text(&self) -> Seq<char> {
        match self {
            CacheError::Io(e) => "I/O error: "@ + e.message@,
            CacheError::NotReady => "Cache not ready for I/O operations"@,
            CacheError::ShuttingDown => "Cache is shutting down"@,
            CacheError::InvalidMetadata => "Invalid cache metadata"@,
            CacheError::OffsetOutOfBounds(offset, size) => "Offset "@ + decimal(*offset as int)
                + " exceeds device size "@ + decimal(*size as int),
            CacheError::ContentStore(e) => "Content store error: "@ + e.text(),
            CacheError::HashMismatch { expected, actual } => "Block hash mismatch: expected "@
                + expected@ + ", got "@ + actual@,
            CacheError::DecompressFailed(why) => "LZ4 decompression failed: "@ + why@,
            CacheError::UnsupportedBlockSize(size, max) => "Unsupported block size "@ + decimal(
                *size as int,
            ) + ": must not exceed "@ + decimal(*max as int)
                + " (ZERO_BLOCK_BYTES is compiled for this size)"@,
            CacheError::BlockEvicted => "Block evicted during flush \u{2014} retry with backfill"@,
            CacheError::VolumeManifest(why) => "Volume manifest error: "@ + why@,
            CacheError::Locked(
                path,
            ) => "WAL file is locked by another process (pid in flock owner): "@ + path@,
            CacheError::Fenced { held, superseded_by } => "fenced: volume taken by generation "@
                + decimal(*superseded_by as int) + " (this writer holds "@ + decimal(*held as int)
                + ")"@,
        }
    }

    /// The text of the error.
    pub fn message(&self) -> (text: String)
        ensures
            text@ == self.text(),
    {
        match self {
            CacheError::Io(e) => joined("I/O error: ", e.message.as_str()),
            CacheError::NotReady => String::from_str("Cache not ready for I/O operations"),
            CacheError::ShuttingDown => String::from_str("Cache is shutting down"),
            CacheError::InvalidMetadata => String::from_str("Invalid cache metadata"),
            CacheError::OffsetOutOfBounds(offset, size) => {
                let mut text = String::from_str("Offset ");
                push_decimal(&mut text, *offset);
                text.append(" exceeds device size ");
                push_decimal(&mut text, *size);
                text
            },
            CacheError::ContentStore(e) => joined("Content store error: ", e.message()),
            CacheError::HashMismatch { expected, actual } => {
                let mut text = joined("Block hash mismatch: expected ", expected.as_str());
                text.append(", got ");
                text.append(actual.as_str());
                text
            },
            CacheError::DecompressFailed(why) => joined("LZ4 decompression failed: ", why.as_str()),
            CacheError::UnsupportedBlockSize(size, max) => {
                let mut text = String::from_str("Unsupported block size ");
                push_decimal(&mut text, *size as u64);
                text.append(": must not exceed ");
                push_decimal(&mut text, *max as u64);
                text.append(" (ZERO_BLOCK_BYTES is compiled for this size)");
                text
            },
            CacheError::BlockEvicted => String::from_str(
                "Block evicted during flush \u{2014} retry with backfill",
            ),
            CacheError::VolumeManifest(why) => joined("Volume manifest error: ", why.as_str()),
            CacheError::Locked(path) => joined(
                "WAL file is locked by another process (pid in flock owner): ",
                path.as_str(),
            ),
            CacheError::Fenced { held, superseded_by } => {
                let mut text = String::from_str("fenced: volume taken by generation ");
                push_decimal(&mut text, *superseded_by);
                text.append(" (this writer holds ");
                push_decimal(&mut text, *held);
                text.append(")");
                text
            },
        }
    }

    /// Create an OffsetOutOfBounds error.
    pub fn offset_out_of_bounds(offset: u64, device_size: u64) -> (e: Self)
        ensures
            e == CacheError::OffsetOutOfBounds(offset, device_size),
    {
        CacheError::OffsetOutOfBounds(offset, device_size)
    }

    /// Create an InvalidMetadata error.
    pub fn invalid_metadata() -> (e: Self)
        ensures
            e == CacheError::InvalidMetadata,
    {
        CacheError::InvalidMetadata
    }

    /// True when the error means another writer owns this export and the flush
    /// scheduler must stop: either a failed precondition (ETag mismatch) or a
    /// single-attach fence.
    pub fn is_manifest_conflict(&self) -> (conflict: bool)
        ensures
            conflict == (self matches CacheError::ContentStore(
                ContentStoreError::PreconditionFailed(_),
            ) || self is Fenced),
    {
        match self {
            CacheError::ContentStore(ContentStoreError::PreconditionFailed(_)) => true,
            CacheError::Fenced { .. } => true,
            _ => false,
        }
    }
}

fn joined(a: &str, b: &str) -> (text: String)
    ensures
        text@ == a@ + b@,
{
    let mut text = String::from_str(a);
    text.append(b);
    text
}

/// The text of an error names what the error is about.
pub proof fn law_error_texts(
    offset: u64,
    size: u64,
    out: String,
    held: u64,
    newer: u64,
    fenced: String,
    why: IoError,
    io: String,
    path: String,
    locked: String,
    expected: String,
    actual: String,
    mismatch: String,
)
    requires
        call_ensures(CacheError::message, (&CacheError::OffsetOutOfBounds(offset, size),), out),
        call_ensures(
            CacheError::message,
            (&CacheError::Fenced { held, superseded_by: newer },),
            fenced,
        ),
        call_ensures(CacheError::message, (&CacheError::Io(why),), io),
        call_ensures(CacheError::message, (&CacheError::Locked(path),), locked),
        call_ensures(
            CacheError::message,
            (&CacheError::HashMismatch { expected, actual },),
            mismatch,
        ),
    ensures
        out@ == "Offset "@ + decimal(offset as int) + " exceeds device size "@ + decimal(size as int),
        fenced@ == "fenced: volume taken by generation "@ + decimal(newer as int)
            + " (this writer holds "@ + decimal(held as int) + ")"@,
        io@ == "I/O error: "@ + why.message@,
        locked@ == "WAL file is locked by another process (pid in flock owner): "@ + path@,
        mismatch@ == "Block hash mismatch: expected "@ + expected@ + ", got "@ + actual@,
{
}

/// Another writer owns the export exactly if the manifest was changed by someone else or a newer
/// generation has taken the volume.
pub proof fn law_conflicts(e: CacheError, conflict: bool)
    requires
        call_ensures(CacheError::is_manifest_conflict, (&e,), conflict),
    ensures
        e is Fenced ==> conflict,
        e is ContentStore ==> (conflict <==> e->ContentStore_0 is PreconditionFailed),
        conflict ==> e is Fenced || e is ContentStore,
{
}

/// The texts of the other errors.
pub proof fn law_more_error_texts(
    not_ready: String,
    shutting_down: String,
    invalid: String,
    evicted: String,
    store: ContentStoreError,
    stored: String,
    why: String,
    decompress: String,
    manifest: String,
    size: usize,
    max: usize,
    unsupported: String,
)
    requires
        call_ensures(CacheError::message, (&CacheError::NotReady,), not_ready),
        call_ensures(CacheError::message, (&CacheError::ShuttingDown,), shutting_down),
        call_ensures(CacheError::message, (&CacheError::InvalidMetadata,), invalid),
        call_ensures(CacheError::message, (&CacheError::BlockEvicted,), evicted),
        call_ensures(CacheError::message, (&CacheError::ContentStore(store),), stored),
        call_ensures(CacheError::message, (&CacheError::DecompressFailed(why),), decompress),
        call_ensures(CacheError::message, (&CacheError::VolumeManifest(why),), manifest),
        call_ensures(
            CacheError::message,
            (&CacheError::UnsupportedBlockSize(size, max),),
            unsupported,
        ),
    ensures
        not_ready@ == "Cache not ready for I/O operations"@,
        shutting_down@ == "Cache is shutting down"@,
        invalid@ == "Invalid cache metadata"@,
        evicted@ == "Block evicted during flush \u{2014} retry with backfill"@,
        match store {
            ContentStoreError::PreconditionFailed(text) => stored@ == "Content store error: "@ + text@,
            ContentStoreError::Other(text) => stored@ == "Content store error: "@ + text@,
        },
        decompress@ == "LZ4 decompression failed: "@ + why@,
        manifest@ == "Volume manifest error: "@ + why@,
        unsupported@ == "Unsupported block size "@ + decimal(size as int) + ": must not exceed "@
            + decimal(max as int) + " (ZERO_BLOCK_BYTES is compiled for this size)"@,
{
}

} // verus!
