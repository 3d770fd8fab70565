//! Error taxonomy of the engine.
//!
//! Precondition failures (missing table, no archives, unknown ids, a job
//! already running, an occupied output path) are returned synchronously,
//! before any worker starts. Whole-job failures (cancellation, a bad pack
//! source) are reported once through the terminal error event.

use vstd::prelude::*;
use crate::pak::PakId;

verus! {

#[derive(Debug, Clone, PartialEq, Eq)]
pub enum Error {
    /// An input/output failure on the named path.
    FileIO { path: String, message: String },
    /// No filename table is loaded.
    MissingFileList,
    /// The given archive id names no live handle.
    PakIdNotFound(PakId),
    /// The registry holds no archives.
    NoPaksLoaded,
    /// The requested order is not a permutation of the held archive ids.
    InvalidOrder(String),
    /// An unpack job is already running.
    UnpackAlreadyRunning,
    /// A pack job is already running.
    PackAlreadyRunning,
    /// The pack output path is already occupied.
    AlreadyExists { path: String },
    /// The job was cancelled.
    Terminated,
    /// No archive holds an entry with the given path.
    PakEntryNotFound(String),
    /// An unexpected internal failure.
    Internal(String),
}

impl Error {
    /// A short label for the error, for display by the embedding application.
    pub fn label(&self) -> (r: &'static str)
        ensures
            r@ == self.spec_label(),
    {
        match self {
            Error::FileIO { .. } => "file io error",
            Error::MissingFileList => "missing file list",
            Error::PakIdNotFound(_) => "pak id not found",
            Error::NoPaksLoaded => "no paks loaded",
            Error::InvalidOrder(_) => "invalid pak order",
            Error::UnpackAlreadyRunning => "unpack already running",
            Error::PackAlreadyRunning => "pack already running",
            Error::AlreadyExists { .. } => "output already exists",
            Error::Terminated => "terminated",
            Error::PakEntryNotFound(_) => "pak entry not found",
            Error::Internal(_) => "internal error",
        }
    }

    pub open spec fn spec_label(&self) -> Seq<char> {
        match self {
            Error::FileIO { .. } => "file io error"@,
            Error::MissingFileList => "missing file list"@,
            Error::PakIdNotFound(_) => "pak id not found"@,
            Error::NoPaksLoaded => "no paks loaded"@,
            Error::InvalidOrder(_) => "invalid pak order"@,
            Error::UnpackAlreadyRunning => "unpack already running"@,
            Error::PackAlreadyRunning => "pack already running"@,
            Error::AlreadyExists { .. } => "output already exists"@,
            Error::Terminated => "terminated"@,
            Error::PakEntryNotFound(_) => "pak entry not found"@,
            Error::Internal(_) => "internal error"@,
        }
    }
}

} // verus!
