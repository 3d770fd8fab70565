//! Archive handles and the request types around them.
//!
//! A `Pak` is one opened archive container: an id, the canonical source path,
//! and the parsed entry list. The bytes themselves, and the reader positioned
//! over them, stay with the embedding application; the engine works on the
//! entry metadata alone.

use vstd::prelude::*;
use crate::common::JsSafeHash;

verus! {

/// Identifier of one live archive handle. Ids are minted by the registry
/// from a monotonic counter and are never reused or recycled.
#[derive(Debug, Clone, Copy, PartialEq, Eq, Structural, Hash)]
pub struct PakId(pub u64);

/// Public description of one held archive.
#[derive(Debug, Clone, PartialEq, Eq)]
pub struct PakInfo {
    pub id: PakId,
    pub path: String,
}

/// One entry of an archive: a hash-addressed, independently compressed file.
#[derive(Debug, Clone, Copy, PartialEq, Eq, Structural)]
pub struct PakEntry {
    /// 64-bit content hash of the entry's path.
    pub hash: u64,
    /// Size of the entry as stored.
    pub compressed_size: u64,
    /// Size of the entry once decompressed.
    pub uncompressed_size: u64,
    /// Whether the entry is stored compressed.
    pub compression_flag: bool,
}

/// One opened archive: id, canonical source path, ordered entry list.
#[derive(Debug, Clone)]
pub struct Pak {
    pub id: PakId,
    pub path: String,
    pub entries: Vec<PakEntry>,
}

impl Pak {
    /// Make a handle for an archive opened at `path` whose entry table parsed
    /// to `entries`. The id is chosen by the registry.
    pub fn new(id: PakId, path: String, entries: Vec<PakEntry>) -> (r: Pak)
        ensures
            r.id == id,
            r.path == path,
            r.entries == entries,
    {
        Pak { id, path, entries }
    }

    pub fn id(&self) -> (r: PakId)
        ensures
            r == self.id,
    {
        self.id
    }

    pub fn path(&self) -> (r: &str)
        ensures
            r@ == self.path@,
    {
        self.path.as_str()
    }
}

/// Progress payload reserved for extraction status snapshots.
#[derive(Debug, Clone, PartialEq, Eq, Structural)]
pub struct ExtractProgress {}

/// What an unpack job should do.
#[derive(Debug, Clone)]
pub struct ExtractOptions {
    /// Root directory the resolved relative paths are joined onto.
    pub output_path: String,
    /// Whether an existing destination file may be replaced.
    pub overwrite: bool,
    /// Extract every entry of every archive, ignoring `extract_files`.
    pub extract_all: bool,
    /// Explicit targets, each naming the archive it belongs to.
    pub extract_files: Vec<ExtractFileInfo>,
}

/// One explicit extraction target.
#[derive(Debug, Clone, Copy, PartialEq, Eq, Structural)]
pub struct ExtractFileInfo {
    pub hash: JsSafeHash,
    pub belongs_to: PakId,
}

} // verus!
